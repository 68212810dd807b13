//! Exploring a labyrinth by knight moves, one server response at a time: a
//! depth-first search whose state lives here, while the caller sends the
//! commands and hands back what the server answers.
use vstd::prelude::*;
use crate::text::{
    all_digits, chars_of, decimal, is_digit, lemma_decimal_injective, lemma_decimal_value, lines,
    push_char, push_decimal, text_lines,
};

verus! {

/// The side of the map, in cells.
pub const MAP_WIDTH: usize = 250;

/// The height of the map, in cells.
pub const MAP_HEIGHT: usize = 250;

/// The cell of the map at column `x`, row `y`.
pub open spec fn cell(x: int, y: int) -> int {
    y * 250 + x
}

/// A knight move, `(dx, dy)`.
pub type Movement = (i32, i32);

// ---------------------------------------------------------------------------
// Commands
// ---------------------------------------------------------------------------

/// The absolute value of a small integer, in decimal.
pub open spec fn abs_decimal(v: i32) -> Seq<char> {
    decimal((if v < 0 {
        -v
    } else {
        v as int
    }) as nat)
}

/// The command that makes a move: rows (`U`p or `D`own), then columns
/// (`L`eft or `R`ight), then a newline.
pub open spec fn command_text(dx: i32, dy: i32) -> Seq<char> {
    abs_decimal(dy) + seq![if dy < 0 {
        'U'
    } else {
        'D'
    }] + abs_decimal(dx) + seq![if dx < 0 {
        'L'
    } else {
        'R'
    }, '\n']
}

/// The command for a move.
pub fn movement_to_command(dx: i32, dy: i32) -> (r: String)
    requires
        dx > i32::MIN,
        dy > i32::MIN,
    ensures
        r@ == command_text(dx, dy),
{
    let mut command = String::new();
    let ady: u64 = if dy < 0 {
        (-dy) as u64
    } else {
        dy as u64
    };
    push_decimal(&mut command, ady);
    if dy < 0 {
        push_char(&mut command, 'U');
    } else {
        push_char(&mut command, 'D');
    }
    let adx: u64 = if dx < 0 {
        (-dx) as u64
    } else {
        dx as u64
    };
    push_decimal(&mut command, adx);
    if dx < 0 {
        push_char(&mut command, 'L');
    } else {
        push_char(&mut command, 'R');
    }
    push_char(&mut command, '\n');
    command
}

/// Digits followed by a non-digit: the digits and the rest are found again
/// from the whole.
proof fn lemma_split_at_non_digit(d1: Seq<char>, r1: Seq<char>, d2: Seq<char>, r2: Seq<char>)
    requires
        all_digits(d1),
        all_digits(d2),
        r1.len() > 0,
        r2.len() > 0,
        !is_digit(r1[0]),
        !is_digit(r2[0]),
        d1 + r1 == d2 + r2,
    ensures
        d1 == d2,
        r1 == r2,
{
    let w = d1 + r1;
    if d1.len() < d2.len() {
        assert(w[d1.len() as int] == r1[0]);
        assert((d2 + r2)[d1.len() as int] == d2[d1.len() as int]);
    } else if d2.len() < d1.len() {
        assert((d2 + r2)[d2.len() as int] == r2[0]);
        assert(w[d2.len() as int] == d1[d2.len() as int]);
    }
    assert(d1 =~= w.take(d1.len() as int));
    assert(d2 =~= (d2 + r2).take(d2.len() as int));
    assert(r1 =~= w.skip(d1.len() as int));
    assert(r2 =~= (d2 + r2).skip(d2.len() as int));
}

/// Different moves give different commands: a command can be read back as
/// the move it encodes.
pub proof fn lemma_command_injective(dx1: i32, dy1: i32, dx2: i32, dy2: i32)
    requires
        dx1 > i32::MIN,
        dy1 > i32::MIN,
        dx2 > i32::MIN,
        dy2 > i32::MIN,
        command_text(dx1, dy1) == command_text(dx2, dy2),
    ensures
        dx1 == dx2,
        dy1 == dy2,
{
    let v1 = if dy1 < 0 { 'U' } else { 'D' };
    let v2 = if dy2 < 0 { 'U' } else { 'D' };
    let h1 = if dx1 < 0 { 'L' } else { 'R' };
    let h2 = if dx2 < 0 { 'L' } else { 'R' };
    let t1 = seq![h1, '\n'];
    let t2 = seq![h2, '\n'];
    let rest1 = seq![v1] + abs_decimal(dx1) + t1;
    let rest2 = seq![v2] + abs_decimal(dx2) + t2;
    assert(command_text(dx1, dy1) =~= abs_decimal(dy1) + rest1);
    assert(command_text(dx2, dy2) =~= abs_decimal(dy2) + rest2);
    lemma_decimal_value((if dy1 < 0 { -dy1 } else { dy1 as int }) as nat);
    lemma_decimal_value((if dy2 < 0 { -dy2 } else { dy2 as int }) as nat);
    lemma_decimal_value((if dx1 < 0 { -dx1 } else { dx1 as int }) as nat);
    lemma_decimal_value((if dx2 < 0 { -dx2 } else { dx2 as int }) as nat);
    assert(rest1[0] == v1);
    assert(rest2[0] == v2);
    lemma_split_at_non_digit(abs_decimal(dy1), rest1, abs_decimal(dy2), rest2);
    assert(v1 == v2) by {
        assert(rest1[0] == rest2[0]);
    }
    assert(rest1.drop_first() =~= abs_decimal(dx1) + t1);
    assert(rest2.drop_first() =~= abs_decimal(dx2) + t2);
    lemma_split_at_non_digit(abs_decimal(dx1), t1, abs_decimal(dx2), t2);
    assert(h1 == h2) by {
        assert(t1[0] == t2[0]);
    }
    lemma_decimal_injective(
        (if dy1 < 0 { -dy1 } else { dy1 as int }) as nat,
        (if dy2 < 0 { -dy2 } else { dy2 as int }) as nat,
    );
    lemma_decimal_injective(
        (if dx1 < 0 { -dx1 } else { dx1 as int }) as nat,
        (if dx2 < 0 { -dx2 } else { dx2 as int }) as nat,
    );
}

// ---------------------------------------------------------------------------
// Moves
// ---------------------------------------------------------------------------

/// The knight moves, in the order they are tried.
pub open spec fn knight_moves() -> Seq<Movement> {
    seq![
        (-2i32, -1i32),
        (-2i32, 1i32),
        (-1i32, -2i32),
        (-1i32, 2i32),
        (1i32, -2i32),
        (1i32, 2i32),
        (2i32, -1i32),
        (2i32, 1i32),
    ]
}

/// The target of a move from `(x, y)` is on the map.
pub open spec fn target_on_map(x: int, y: int, m: Movement) -> bool {
    0 <= x + m.0 < 250 && 0 <= y + m.1 < 250
}

/// The knight moves from `(x, y)` that do not land on a wall (`#`), in
/// order; `None` where one of them would leave the map.
pub open spec fn open_moves(x: int, y: int, map: Seq<char>) -> Option<Seq<Movement>> {
    if exists|k: int| 0 <= k < 8 && !target_on_map(x, y, #[trigger] knight_moves()[k]) {
        None
    } else {
        Some(knight_moves().filter(|m: Movement| map[cell(x + m.0, y + m.1)] != '#'))
    }
}

fn knight_move(k: usize) -> (m: Movement)
    requires
        k < 8,
    ensures
        m == knight_moves()[k as int],
{
    let dxs: Vec<i32> = vec![-2, -2, -1, -1, 1, 1, 2, 2];
    let dys: Vec<i32> = vec![-1, 1, -2, 2, -2, 2, -1, 1];
    (dxs[k], dys[k])
}

/// The moves from `(x, y)` that do not land on a wall; `None` where one
/// would leave the map.
pub fn generate_movements(x: usize, y: usize, labyrinth: &Vec<char>) -> (r: Option<Vec<Movement>>)
    requires
        x < 250,
        y < 250,
        labyrinth@.len() == 62500,
    ensures
        match r {
            Some(v) => open_moves(x as int, y as int, labyrinth@) == Some(v@),
            None => open_moves(x as int, y as int, labyrinth@) is None,
        },
{
    if x < 2 || y < 2 || x > 247 || y > 247 {
        proof {
            let ms = knight_moves();
            if x < 2 {
                assert(!target_on_map(x as int, y as int, ms[0]));
            } else if y < 2 {
                assert(!target_on_map(x as int, y as int, ms[2]));
            } else if x > 247 {
                assert(!target_on_map(x as int, y as int, ms[7]));
            } else {
                assert(!target_on_map(x as int, y as int, ms[3]));
            }
        }
        return None;
    }
    let ghost pred = |m: Movement| labyrinth@[cell(x + m.0, y + m.1)] != '#';
    let mut valid_movements: Vec<Movement> = Vec::new();
    for k in 0..8
        invariant
            2 <= x <= 247,
            2 <= y <= 247,
            labyrinth@.len() == 62500,
            pred == (|m: Movement| labyrinth@[cell(x + m.0, y + m.1)] != '#'),
            valid_movements@ == knight_moves().take(k as int).filter(pred),
    {
        let m = knight_move(k);
        let xx = ((x as i32) + m.0) as usize;
        let yy = ((y as i32) + m.1) as usize;
        proof {
            assert(knight_moves().take(k + 1) =~= knight_moves().take(k as int).push(m));
            knight_moves().take(k as int).lemma_filter_push(m, pred);
        }
        if labyrinth[yy * 250 + xx] != '#' {
            valid_movements.push(m);
        }
    }
    proof {
        assert(knight_moves().take(8) =~= knight_moves());
        assert forall|k: int| 0 <= k < 8 implies target_on_map(x as int, y as int, #[trigger] knight_moves()[k]) by {}
    }
    Some(valid_movements)
}

// ---------------------------------------------------------------------------
// Responses
// ---------------------------------------------------------------------------

/// A response seen from `(x, y)` can be read: the 5×5 window centered on
/// `(x, y)` lies on the map, and the response has five lines of at least
/// five characters each first.
pub open spec fn readable(x: int, y: int, response: Seq<char>) -> bool {
    let ls = text_lines(response);
    !(x < 2 || y < 2 || x > 247 || y > 247 || ls.len() < 5 || exists|i: int|
        0 <= i < 5 && (#[trigger] ls[i]).len() < 5)
}

/// The map after a response seen from `(x, y)`: the 5×5 window centered on
/// `(x, y)` takes the first five characters of the first five lines; `None`
/// where the response cannot be read (see `readable`).
pub open spec fn apply_view(map: Seq<char>, x: int, y: int, response: Seq<char>) -> Option<Seq<char>> {
    let ls = text_lines(response);
    if !readable(x, y, response) {
        None
    } else {
        Some(
            Seq::new(
                map.len(),
                |c: int|
                    {
                        let cx = c % 250;
                        let cy = c / 250;
                        if x - 2 <= cx <= x + 2 && y - 2 <= cy <= y + 2 {
                            ls[cy - y + 2][cx - x + 2]
                        } else {
                            map[c]
                        }
                    },
            ),
        )
    }
}

/// Whether a response seen from `(x, y)` can be read, as `readable` says.
pub fn view_fits(x: usize, y: usize, response: &str) -> (r: bool)
    ensures
        r == readable(x as int, y as int, response@),
{
    let chars = chars_of(response);
    let ls = lines(&chars);
    if x < 2 || y < 2 || x > 247 || y > 247 || ls.len() < 5 {
        return false;
    }
    for i in 0..5
        invariant
            ls@.len() >= 5,
            ls@.len() == text_lines(response@).len(),
            forall|k: int| 0 <= k < ls@.len() ==> (#[trigger] ls@[k])@ == text_lines(response@)[k],
            forall|k: int| 0 <= k < i ==> (#[trigger] ls@[k])@.len() >= 5,
    {
        if ls[i].len() < 5 {
            assert((ls@[i as int])@ == text_lines(response@)[i as int]);
            return false;
        }
    }
    let ghost ts = text_lines(response@);
    assert forall|i: int| 0 <= i < 5 implies (#[trigger] ts[i]).len() >= 5 by {
        assert(ls@[i]@ == ts[i]);
    }
    true
}

/// Writes the window that a readable response shows around `(x, y)` into
/// the map.
pub fn update(labyrinth: &mut Vec<char>, x: usize, y: usize, response: &str)
    requires
        old(labyrinth)@.len() == 62500,
        readable(x as int, y as int, response@),
    ensures
        final(labyrinth)@ == apply_view(old(labyrinth)@, x as int, y as int, response@)->0,
{
    let chars = chars_of(response);
    let ls = lines(&chars);
    let ghost ts = text_lines(response@);
    assert forall|i: int| 0 <= i < 5 implies (#[trigger] ls@[i])@.len() >= 5 by {
        assert(ls@[i]@ == ts[i]);
    }
    assert(apply_view(old(labyrinth)@, x as int, y as int, response@) is Some);
    let ghost target = apply_view(old(labyrinth)@, x as int, y as int, response@)->0;
    for i in 0..5
        invariant
            2 <= x <= 247,
            2 <= y <= 247,
            ls@.len() >= 5,
            forall|k: int| 0 <= k < 5 ==> (#[trigger] ls@[k])@.len() >= 5,
            forall|k: int| 0 <= k < ls@.len() ==> (#[trigger] ls@[k])@ == ts[k],
            ts == text_lines(response@),
            ts.len() >= 5,
            forall|k: int| 0 <= k < 5 ==> (#[trigger] ts[k]).len() >= 5,
            old(labyrinth)@.len() == 62500,
            apply_view(old(labyrinth)@, x as int, y as int, response@) is Some,
            target == apply_view(old(labyrinth)@, x as int, y as int, response@)->0,
            labyrinth@.len() == 62500,
            forall|c: int|
                0 <= c < 62500 ==> #[trigger] labyrinth@[c] == (if c / 250 < y - 2 + i && y - 2 <= c
                    / 250 && x - 2 <= c % 250 <= x + 2 {
                    target[c]
                } else {
                    old(labyrinth)@[c]
                }),
    {
        for j in 0..5
            invariant
                2 <= x <= 247,
                2 <= y <= 247,
                i < 5,
                ls@.len() >= 5,
                forall|k: int| 0 <= k < 5 ==> (#[trigger] ls@[k])@.len() >= 5,
                forall|k: int| 0 <= k < ls@.len() ==> (#[trigger] ls@[k])@ == ts[k],
                ts == text_lines(response@),
                ts.len() >= 5,
                forall|k: int| 0 <= k < 5 ==> (#[trigger] ts[k]).len() >= 5,
                old(labyrinth)@.len() == 62500,
                apply_view(old(labyrinth)@, x as int, y as int, response@) is Some,
                target == apply_view(old(labyrinth)@, x as int, y as int, response@)->0,
                labyrinth@.len() == 62500,
                forall|c: int|
                    0 <= c < 62500 ==> #[trigger] labyrinth@[c] == (if (c / 250 < y - 2 + i || (c / 250
                        == y - 2 + i && c % 250 < x - 2 + j)) && y - 2 <= c / 250 && x - 2 <= c % 250
                        <= x + 2 {
                        target[c]
                    } else {
                        old(labyrinth)@[c]
                    }),
        {
            let c = (y + i - 2) * 250 + (x + j - 2);
            let v = ls[i][j];
            labyrinth.set(c, v);
            proof {
                assert(c / 250 == y + i - 2 && c % 250 == x + j - 2);
                assert(target[c as int] == ts[i as int][j as int]);
                assert forall|d: int| 0 <= d < 62500 implies #[trigger] labyrinth@[d] == (if (d / 250 < y - 2 + i || (
                d / 250 == y - 2 + i && d % 250 < x - 2 + j + 1)) && y - 2 <= d / 250 && x - 2 <= d % 250
                    <= x + 2 {
                    target[d]
                } else {
                    old(labyrinth)@[d]
                }) by {
                    if d != c {
                        assert(d / 250 != c / 250 || d % 250 != c % 250);
                    }
                }
            }
        }
    }
    proof {
        assert(labyrinth@ =~= target);
    }
}


// ---------------------------------------------------------------------------
// Rendering
// ---------------------------------------------------------------------------

/// The first `n` rows of the map as text, one line per row, lines joined by
/// `\n`.
pub open spec fn rows_text(map: Seq<char>, n: int) -> Seq<char>
    decreases n,
{
    if n <= 0 {
        seq![]
    } else {
        rows_text(map, n - 1) + (if n > 1 {
            seq!['\n']
        } else {
            seq![]
        }) + map.subrange((n - 1) * 250, n * 250)
    }
}

/// The whole map as text: its rows, top to bottom, joined by `\n`.
pub fn render(labyrinth: &Vec<char>) -> (r: String)
    requires
        labyrinth@.len() == 62500,
    ensures
        r@ == rows_text(labyrinth@, 250),
{
    let mut out = String::new();
    for row in 0usize..250
        invariant
            labyrinth@.len() == 62500,
            out@ == rows_text(labyrinth@, row as int),
    {
        if row > 0 {
            push_char(&mut out, '\n');
        }
        let ghost before = out@;
        for col in 0usize..250
            invariant
                labyrinth@.len() == 62500,
                row < 250,
                out@ == before + labyrinth@.subrange(row * 250, row * 250 + col as int),
        {
            push_char(&mut out, labyrinth[row * 250 + col]);
            assert(labyrinth@.subrange(row * 250, row * 250 + col + 1) =~= labyrinth@.subrange(
                row * 250,
                row * 250 + col as int,
            ).push(labyrinth@[row * 250 + col as int]));
        }
    }
    out
}

// ---------------------------------------------------------------------------
// The exploration
// ---------------------------------------------------------------------------

/// A move whose steps are at most two squares each way.
pub open spec fn small_move(m: Movement) -> bool {
    -2 <= m.0 <= 2 && -2 <= m.1 <= 2
}

/// A square being explored: where it is, the move that led to it, the open
/// moves seen from it, and how many of them have been looked at.
pub struct Frame {
    pub x: usize,
    pub y: usize,
    pub last: Movement,
    pub moves: Vec<Movement>,
    pub next: usize,
}

/// What a frame stands for.
#[verifier::ext_equal]
pub struct FrameModel {
    pub x: int,
    pub y: int,
    pub last: Movement,
    pub moves: Seq<Movement>,
    pub next: int,
}

impl View for Frame {
    type V = FrameModel;

    open spec fn view(&self) -> FrameModel {
        FrameModel {
            x: self.x as int,
            y: self.y as int,
            last: self.last,
            moves: self.moves@,
            next: self.next as int,
        }
    }
}

/// What the next response will be about: the square just moved to, with the
/// move that led there, or the square stepped back to.
#[derive(Clone, Copy)]
pub enum Pending {
    Enter { x: usize, y: usize, last: Movement },
    Return { x: usize, y: usize },
}

/// What to do after a response: send a command, stop because the search is
/// over, or stop because the response could not be read.
pub enum Step {
    Send(String),
    Done,
    Failed,
}

/// What a step stands for.
pub enum Outcome {
    Send(Seq<char>),
    Done,
    Failed,
}

impl View for Step {
    type V = Outcome;

    open spec fn view(&self) -> Outcome {
        match self {
            Step::Send(s) => Outcome::Send(s@),
            Step::Done => Outcome::Done,
            Step::Failed => Outcome::Failed,
        }
    }
}

/// The state of a search: the map seen so far, the squares entered, the
/// squares whose moves are still being tried (the innermost last), what the
/// next response is about, and whether the search is over.
pub struct Explorer {
    labyrinth: Vec<char>,
    visited: Vec<bool>,
    stack: Vec<Frame>,
    pending: Pending,
    finished: bool,
}

/// What an explorer stands for.
#[verifier::ext_equal]
pub struct ExplorerModel {
    pub labyrinth: Seq<char>,
    pub visited: Seq<bool>,
    pub stack: Seq<FrameModel>,
    pub pending: Pending,
    pub finished: bool,
}

impl View for Explorer {
    type V = ExplorerModel;

    closed spec fn view(&self) -> ExplorerModel {
        ExplorerModel {
            labyrinth: self.labyrinth@,
            visited: self.visited@,
            stack: self.stack@.map_values(|f: Frame| f@),
            pending: self.pending,
            finished: self.finished,
        }
    }
}

/// A frame stands on a square whose whole window is on the map, came there
/// by a small move, and has looked at no more moves than it has.
pub open spec fn frame_ok(f: FrameModel) -> bool {
    &&& 2 <= f.x <= 247
    &&& 2 <= f.y <= 247
    &&& small_move(f.last)
    &&& 0 <= f.next <= f.moves.len()
    &&& forall|j: int| 0 <= j < f.moves.len() ==> small_move(#[trigger] f.moves[j])
}

/// The search state is consistent: full-size map and visit marks, sound
/// frames, and a pending square on the map.
pub open spec fn model_ok(m: ExplorerModel) -> bool {
    &&& m.labyrinth.len() == 62500
    &&& m.visited.len() == 62500
    &&& forall|i: int| 0 <= i < m.stack.len() ==> frame_ok(#[trigger] m.stack[i])
    &&& match m.pending {
        Pending::Enter { x, y, last } => x < 250 && y < 250 && small_move(last),
        Pending::Return { x, y } => x < 250 && y < 250,
    }
}

/// The search as it starts: an empty map, nothing entered, and the first
/// response about the centre of the map.
pub open spec fn start_model() -> ExplorerModel {
    ExplorerModel {
        labyrinth: Seq::new(62500, |i: int| ' '),
        visited: Seq::new(62500, |i: int| false),
        stack: seq![],
        pending: Pending::Enter { x: 125, y: 125, last: (0, 0) },
        finished: false,
    }
}

/// The first move of `moves`, from index `from` on, whose target has not
/// been entered; `moves.len()` where there is none.
pub open spec fn first_open(x: int, y: int, moves: Seq<Movement>, from: int, visited: Seq<bool>) -> int
    decreases moves.len() - from,
{
    if from >= moves.len() {
        moves.len() as int
    } else if !visited[cell(x + moves[from].0, y + moves[from].1)] {
        from
    } else {
        first_open(x, y, moves, from + 1, visited)
    }
}

/// The innermost frame goes on: it moves to the first target not yet
/// entered, or, with none left, steps back the way it came and is dropped.
pub open spec fn advance(m: ExplorerModel) -> (ExplorerModel, Outcome) {
    let top = m.stack.last();
    let k = first_open(top.x, top.y, top.moves, top.next, m.visited);
    if k < top.moves.len() {
        let mv = top.moves[k];
        (
            ExplorerModel {
                stack: m.stack.drop_last().push(FrameModel { next: k + 1, ..top }),
                pending: Pending::Enter {
                    x: (top.x + mv.0) as usize,
                    y: (top.y + mv.1) as usize,
                    last: mv,
                },
                ..m
            },
            Outcome::Send(command_text(mv.0, mv.1)),
        )
    } else {
        (
            ExplorerModel {
                stack: m.stack.drop_last(),
                pending: Pending::Return {
                    x: (top.x - top.last.0) as usize,
                    y: (top.y - top.last.1) as usize,
                },
                ..m
            },
            Outcome::Send(command_text((-top.last.0) as i32, (-top.last.1) as i32)),
        )
    }
}

/// One response handled. Entering a square marks it entered, reads its
/// window into the map and opens a frame with its open moves; stepping back
/// reads the window and, with no frame left, ends the search. Then the
/// innermost frame goes on. A response that cannot be read changes nothing.
pub open spec fn respond(m: ExplorerModel, response: Seq<char>) -> (ExplorerModel, Outcome) {
    if m.finished {
        (m, Outcome::Done)
    } else {
        match m.pending {
            Pending::Enter { x, y, last } => match apply_view(m.labyrinth, x as int, y as int, response) {
                None => (m, Outcome::Failed),
                Some(map) => advance(
                    ExplorerModel {
                        labyrinth: map,
                        visited: m.visited.update(cell(x as int, y as int), true),
                        stack: m.stack.push(
                            FrameModel {
                                x: x as int,
                                y: y as int,
                                last,
                                moves: open_moves(x as int, y as int, map)->0,
                                next: 0,
                            },
                        ),
                        ..m
                    },
                ),
            },
            Pending::Return { x, y } => match apply_view(m.labyrinth, x as int, y as int, response) {
                None => (m, Outcome::Failed),
                Some(map) => if m.stack.len() == 0 {
                    (ExplorerModel { labyrinth: map, finished: true, ..m }, Outcome::Done)
                } else {
                    advance(ExplorerModel { labyrinth: map, ..m })
                },
            },
        }
    }
}

/// The moves that `open_moves` gives are knight moves.
proof fn lemma_open_moves_small(x: int, y: int, map: Seq<char>)
    requires
        open_moves(x, y, map) is Some,
    ensures
        forall|j: int|
            0 <= j < open_moves(x, y, map)->0.len() ==> small_move(
                #[trigger] open_moves(x, y, map)->0[j],
            ),
{
    let pred = |m: Movement| map[cell(x + m.0, y + m.1)] != '#';
    let ms = knight_moves().filter(pred);
    assert(open_moves(x, y, map)->0 == ms);
    assert forall|j: int| 0 <= j < ms.len() implies small_move(#[trigger] ms[j]) by {
        assert(ms.contains(ms[j]));
        knight_moves().lemma_filter_contains_rev(pred, ms[j]);
        let k = choose|k: int| 0 <= k < knight_moves().len() && knight_moves()[k] == ms[j];
        assert(small_move(knight_moves()[k]));
    }
}

/// A window that can be read lies on the map far enough from its edge that
/// every knight move from its centre stays on the map.
proof fn lemma_view_keeps_moves(map: Seq<char>, x: int, y: int, response: Seq<char>)
    requires
        apply_view(map, x, y, response) is Some,
    ensures
        2 <= x <= 247,
        2 <= y <= 247,
        open_moves(x, y, apply_view(map, x, y, response)->0) is Some,
        apply_view(map, x, y, response)->0.len() == map.len(),
{
    let m2 = apply_view(map, x, y, response)->0;
    assert forall|k: int| 0 <= k < 8 implies target_on_map(x, y, #[trigger] knight_moves()[k]) by {}
}

/// `first_open` finds a move whose target has not been entered, if it
/// finds one.
proof fn lemma_first_open(x: int, y: int, moves: Seq<Movement>, from: int, visited: Seq<bool>)
    requires
        0 <= from,
    ensures
        from <= first_open(x, y, moves, from, visited) <= moves.len() || (from > moves.len()
            && first_open(x, y, moves, from, visited) == moves.len()),
        first_open(x, y, moves, from, visited) < moves.len() ==> !visited[cell(
            x + moves[first_open(x, y, moves, from, visited)].0,
            y + moves[first_open(x, y, moves, from, visited)].1,
        )],
    decreases moves.len() - from,
{
    if from < moves.len() && visited[cell(x + moves[from].0, y + moves[from].1)] {
        lemma_first_open(x, y, moves, from + 1, visited);
    }
}

/// Entering marks: once the response about a square being entered is read,
/// that square is marked entered, and no mark is ever taken away.
pub proof fn lemma_enter_marks(m: ExplorerModel, response: Seq<char>)
    requires
        model_ok(m),
    ensures
        ({
            let m2 = respond(m, response).0;
            &&& forall|c: int| 0 <= c < 62500 && #[trigger] m.visited[c] ==> m2.visited[c]
            &&& m2.visited.len() == m.visited.len()
            &&& (m.pending is Enter && !m.finished && readable(
                m.pending->Enter_x as int,
                m.pending->Enter_y as int,
                response,
            )) ==> m2.visited[cell(m.pending->Enter_x as int, m.pending->Enter_y as int)]
        }),
{
}

/// The search never moves onto a square it has entered: whenever a
/// response leads to a move, the square moved to is not marked entered.
pub proof fn lemma_moves_to_new_squares(m: ExplorerModel, response: Seq<char>)
    requires
        model_ok(m),
    ensures
        ({
            let (m2, out) = respond(m, response);
            (out is Send && m2.pending is Enter) ==> !m2.visited[cell(
                m2.pending->Enter_x as int,
                m2.pending->Enter_y as int,
            )]
        }),
{
    let (m2, out) = respond(m, response);
    if !m.finished {
        match m.pending {
            Pending::Enter { x, y, last } => {
                if let Some(map) = apply_view(m.labyrinth, x as int, y as int, response) {
                    lemma_view_keeps_moves(m.labyrinth, x as int, y as int, response);
                    lemma_open_moves_small(x as int, y as int, map);
                    let moves = open_moves(x as int, y as int, map)->0;
                    let v2 = m.visited.update(cell(x as int, y as int), true);
                    lemma_first_open(x as int, y as int, moves, 0, v2);
                    let k = first_open(x as int, y as int, moves, 0, v2);
                    if k < moves.len() {
                        assert(small_move(moves[k]));
                    }
                }
            },
            Pending::Return { x, y } => {
                if let Some(map) = apply_view(m.labyrinth, x as int, y as int, response) {
                    if m.stack.len() > 0 {
                        let top = m.stack.last();
                        assert(frame_ok(top));
                        lemma_first_open(top.x, top.y, top.moves, top.next, m.visited);
                        let k = first_open(top.x, top.y, top.moves, top.next, m.visited);
                        if k < top.moves.len() {
                            assert(small_move(top.moves[k]));
                        }
                    }
                }
            },
        }
    }
}

impl Explorer {
    /// A search about to start at the centre of an empty map.
    pub fn new() -> (r: Explorer)
        ensures
            r@ == start_model(),
            model_ok(r@),
    {
        let mut labyrinth: Vec<char> = Vec::new();
        let mut visited: Vec<bool> = Vec::new();
        for i in 0usize..62500
            invariant
                labyrinth@ == Seq::new(i as nat, |k: int| ' '),
                visited@ == Seq::new(i as nat, |k: int| false),
        {
            labyrinth.push(' ');
            visited.push(false);
            assert(labyrinth@ =~= Seq::new((i + 1) as nat, |k: int| ' '));
            assert(visited@ =~= Seq::new((i + 1) as nat, |k: int| false));
        }
        let r = Explorer {
            labyrinth,
            visited,
            stack: Vec::new(),
            pending: Pending::Enter { x: 125, y: 125, last: (0, 0) },
            finished: false,
        };
        assert(r@ =~= start_model());
        r
    }

    /// The map seen so far, row after row.
    pub fn labyrinth(&self) -> (r: &Vec<char>)
        ensures
            r@ == self@.labyrinth,
    {
        &self.labyrinth
    }

    /// Whether the search is over.
    pub fn is_finished(&self) -> (r: bool)
        ensures
            r == self@.finished,
    {
        self.finished
    }

    /// Handles the response to the last command (or, at first, the greeting)
    /// and says what to send next.
    pub fn on_response(&mut self, response: &str) -> (step: Step)
        requires
            model_ok(old(self)@),
        ensures
            model_ok(final(self)@),
            final(self)@ == respond(old(self)@, response@).0,
            step@ == respond(old(self)@, response@).1,
    {
        if self.finished {
            return Step::Done;
        }
        match self.pending {
            Pending::Enter { x, y, last } => {
                let ghost m0 = self@;
                if !view_fits(x, y, response) {
                    return Step::Failed;
                }
                update(&mut self.labyrinth, x, y, response);
                proof {
                    lemma_view_keeps_moves(m0.labyrinth, x as int, y as int, response@);
                }
                let moves = match generate_movements(x, y, &self.labyrinth) {
                    Some(v) => v,
                    None => {
                        assert(false);
                        return Step::Failed;
                    },
                };
                proof {
                    lemma_open_moves_small(x as int, y as int, self.labyrinth@);
                }
                self.visited.set(y * 250 + x, true);
                self.stack.push(Frame { x, y, last, moves, next: 0 });
                let ghost m1 = ExplorerModel {
                    labyrinth: self.labyrinth@,
                    visited: m0.visited.update(cell(x as int, y as int), true),
                    stack: m0.stack.push(
                        FrameModel {
                            x: x as int,
                            y: y as int,
                            last,
                            moves: open_moves(x as int, y as int, self.labyrinth@)->0,
                            next: 0,
                        },
                    ),
                    ..m0
                };
                assert(self@ =~= m1);
                self.advance()
            },
            Pending::Return { x, y } => {
                let ghost m0 = self@;
                if !view_fits(x, y, response) {
                    return Step::Failed;
                }
                update(&mut self.labyrinth, x, y, response);
                if self.stack.len() == 0 {
                    self.finished = true;
                    assert(self@ =~= ExplorerModel {
                        labyrinth: self.labyrinth@,
                        finished: true,
                        ..m0
                    });
                    return Step::Done;
                }
                assert(self@ =~= ExplorerModel { labyrinth: self.labyrinth@, ..m0 });
                self.advance()
            },
        }
    }

    fn advance(&mut self) -> (step: Step)
        requires
            model_ok(old(self)@),
            old(self)@.stack.len() > 0,
        ensures
            model_ok(final(self)@),
            final(self)@ == advance(old(self)@).0,
            step@ == advance(old(self)@).1,
    {
        let ghost m0 = self@;
        let ghost top = m0.stack.last();
        let frame_opt = self.stack.pop();
        let mut frame = match frame_opt {
            Some(f) => f,
            None => {
                assert(false);
                return Step::Failed;
            },
        };
        assert(frame@ == top);
        assert(frame_ok(top));
        let mut k = frame.next;
        loop
            invariant
                frame@ == top,
                frame_ok(top),
                self.visited@ == m0.visited,
                m0.visited.len() == 62500,
                top.next <= k <= top.moves.len(),
                first_open(top.x, top.y, top.moves, k as int, m0.visited) == first_open(
                    top.x,
                    top.y,
                    top.moves,
                    top.next,
                    m0.visited,
                ),
            ensures
                top.next <= k <= top.moves.len(),
                k == first_open(top.x, top.y, top.moves, top.next, m0.visited),
            decreases frame.moves.len() - k,
        {
            if k >= frame.moves.len() {
                break;
            }
            let m = frame.moves[k];
            assert(small_move(top.moves[k as int]));
            let tx = ((frame.x as i32) + m.0) as usize;
            let ty = ((frame.y as i32) + m.1) as usize;
            if !self.visited[ty * 250 + tx] {
                break;
            }
            k = k + 1;
        }
        if k < frame.moves.len() {
            let m = frame.moves[k];
            assert(small_move(top.moves[k as int]));
            let tx = ((frame.x as i32) + m.0) as usize;
            let ty = ((frame.y as i32) + m.1) as usize;
            frame.next = k + 1;
            self.stack.push(frame);
            self.pending = Pending::Enter { x: tx, y: ty, last: m };
            assert(self@.stack =~= m0.stack.drop_last().push(FrameModel { next: k + 1, ..top }));
            assert(self@ =~= advance(m0).0);
            Step::Send(movement_to_command(m.0, m.1))
        } else {
            let px = ((frame.x as i32) - frame.last.0) as usize;
            let py = ((frame.y as i32) - frame.last.1) as usize;
            self.pending = Pending::Return { x: px, y: py };
            assert(self@.stack =~= m0.stack.drop_last());
            assert(self@ =~= advance(m0).0);
            Step::Send(movement_to_command(-frame.last.0, -frame.last.1))
        }
    }
}

} // verus!
