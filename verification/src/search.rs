use vstd::prelude::*;

use std::collections::HashMap;

use crate::engine::{
    calc_legal_moves, calc_reachable_fields, is_king_checked, king_checked_spec, legal_moves_spec,
    lemma_concat_assoc, lemma_push_concat, lemma_reachable_ok, lemma_seq_empty_right,
    move_shape_ok, play_move, play_spec,
};
use crate::models::{
    Board, BoardSpec, CastleRights, Field, FigureColor, FigureType, PositionDescription, board_ok,
    color_ok,
};

verus! {

broadcast use vstd::std_specs::hash::group_hash_axioms;

// ---------------------------------------------------------------------------
// Static evaluation: material, always from the side to move's perspective.
// ---------------------------------------------------------------------------

pub open spec fn figure_value(t: FigureType) -> int {
    match t {
        FigureType::PAWN => 100,
        FigureType::KNIGHT => 300,
        FigureType::BISHOP => 300,
        FigureType::ROOK => 500,
        FigureType::QUEEN => 900,
        FigureType::KING => 20000,
        FigureType::NONE => 0,
    }
}

pub open spec fn field_value(b: BoardSpec, i: int) -> int {
    if b.fields[i].figure_color == b.active {
        figure_value(b.fields[i].figure_type)
    } else {
        -figure_value(b.fields[i].figure_type)
    }
}

pub open spec fn eval_upto(b: BoardSpec, n: int) -> int
    decreases n,
{
    if n <= 0 {
        0
    } else {
        eval_upto(b, n - 1) + field_value(b, n - 1)
    }
}

/// Material balance over all 64 squares, positive for figures of the side to
/// move, negative for the rest.
pub open spec fn eval_spec(b: BoardSpec) -> int {
    eval_upto(b, 64)
}

fn evaluate_position(board: &Board) -> (r: i32)
    requires
        board@.fields.len() == 64,
    ensures
        r as int == eval_spec(board@),
{
    let mut score: i32 = 0;
    let mut i: usize = 0;
    while i < 64
        invariant
            i <= 64,
            board@.fields.len() == 64,
            score as int == eval_upto(board@, i as int),
            -20000 * i <= score as int <= 20000 * i,
        decreases 64 - i,
    {
        let field = board.fields[i];
        let side_multiplier: i32 = if field.figure_color == board.active {
            1
        } else {
            -1
        };
        match field.figure_type {
            FigureType::PAWN => {
                score = score + side_multiplier * 100;
            },
            FigureType::KNIGHT => {
                score = score + side_multiplier * 100 * 3;
            },
            FigureType::BISHOP => {
                score = score + side_multiplier * 100 * 3;
            },
            FigureType::ROOK => {
                score = score + side_multiplier * 100 * 5;
            },
            FigureType::QUEEN => {
                score = score + side_multiplier * 100 * 9;
            },
            FigureType::KING => {
                score = score + side_multiplier * 100 * 200;
            },
            FigureType::NONE => {},
        }
        i += 1;
    }
    score
}

// ---------------------------------------------------------------------------
// Structural position hash, keying the evaluation cache: a 64-bit
// Fowler-Noll-Vo fold over every square state, the side to move, the castling
// flags and the en-passant target, so structurally equal positions hash alike.
// ---------------------------------------------------------------------------

pub open spec fn type_code(t: FigureType) -> int {
    match t {
        FigureType::KING => 1,
        FigureType::QUEEN => 2,
        FigureType::BISHOP => 3,
        FigureType::KNIGHT => 4,
        FigureType::ROOK => 5,
        FigureType::PAWN => 6,
        FigureType::NONE => 0,
    }
}

pub open spec fn color_code(c: FigureColor) -> int {
    match c {
        FigureColor::BLACK => 1,
        FigureColor::WHITE => 2,
        FigureColor::NONE => 0,
    }
}

pub open spec fn field_code(f: Field) -> u64 {
    (type_code(f.figure_type) * 3 + color_code(f.figure_color)) as u64
}

pub open spec fn rights_code(cr: CastleRights) -> int {
    (if cr.K {
        8int
    } else {
        0int
    }) + (if cr.Q {
        4int
    } else {
        0int
    }) + (if cr.k {
        2int
    } else {
        0int
    }) + (if cr.q {
        1int
    } else {
        0int
    })
}

pub open spec fn fnv_step(h: u64, v: u64) -> u64 {
    vstd::wrapping::u64_specs::wrapping_mul(h ^ v, 0x100000001b3u64)
}

pub open spec fn hash_fields_upto(b: BoardSpec, n: int) -> u64
    decreases n,
{
    if n <= 0 {
        0xcbf29ce484222325u64
    } else {
        fnv_step(hash_fields_upto(b, n - 1), field_code(b.fields[n - 1]))
    }
}

/// The cache key of a position: a deterministic function of every square
/// state, the side to move, the castling flags and the en-passant target.
pub open spec fn hash_spec(b: BoardSpec) -> u64 {
    let h1 = fnv_step(hash_fields_upto(b, 64), color_code(b.active) as u64);
    let h2 = fnv_step(h1, rights_code(b.castle_rights) as u64);
    fnv_step(h2, (b.en_passant + 1) as u64)
}

fn calculate_hash(board: &Board) -> (r: u64)
    requires
        board@.fields.len() == 64,
        -1 <= board@.en_passant < 64,
    ensures
        r == hash_spec(board@),
{
    let mut h: u64 = 0xcbf29ce484222325;
    let mut i: usize = 0;
    while i < 64
        invariant
            i <= 64,
            board@.fields.len() == 64,
            h == hash_fields_upto(board@, i as int),
        decreases 64 - i,
    {
        let f = board.fields[i];
        let t: u64 = match f.figure_type {
            FigureType::KING => 1,
            FigureType::QUEEN => 2,
            FigureType::BISHOP => 3,
            FigureType::KNIGHT => 4,
            FigureType::ROOK => 5,
            FigureType::PAWN => 6,
            FigureType::NONE => 0,
        };
        let c: u64 = match f.figure_color {
            FigureColor::BLACK => 1,
            FigureColor::WHITE => 2,
            FigureColor::NONE => 0,
        };
        h = (h ^ (t * 3 + c)).wrapping_mul(0x100000001b3);
        i += 1;
    }
    let a: u64 = match board.active {
        FigureColor::BLACK => 1,
        FigureColor::WHITE => 2,
        FigureColor::NONE => 0,
    };
    h = (h ^ a).wrapping_mul(0x100000001b3);
    let rc: u64 = (if board.castle_rights.K {
        8u64
    } else {
        0u64
    }) + (if board.castle_rights.Q {
        4u64
    } else {
        0u64
    }) + (if board.castle_rights.k {
        2u64
    } else {
        0u64
    }) + (if board.castle_rights.q {
        1u64
    } else {
        0u64
    });
    h = (h ^ rc).wrapping_mul(0x100000001b3);
    let e: u64 = (board.en_passant + 1) as u64;
    h = (h ^ e).wrapping_mul(0x100000001b3);
    h
}

// ---------------------------------------------------------------------------
// Every legal move of the side to move, square by square in board order.
// ---------------------------------------------------------------------------

/// The moves of `s` from position `j` on, tagged with their source square.
pub open spec fn tag_moves(i: int, s: Seq<(i8, FigureType)>, j: int) -> Seq<
    (i8, (i8, FigureType)),
>
    decreases s.len() - j,
{
    if j < 0 || j >= s.len() {
        Seq::empty()
    } else {
        seq![(i as i8, s[j])] + tag_moves(i, s, j + 1)
    }
}

pub open spec fn square_moves(b: BoardSpec, i: int) -> Seq<(i8, (i8, FigureType))> {
    if b.fields[i].figure_color == b.active {
        tag_moves(i, legal_moves_spec(b, i), 0)
    } else {
        Seq::empty()
    }
}

pub open spec fn side_moves_upto(b: BoardSpec, n: int) -> Seq<(i8, (i8, FigureType))>
    decreases n,
{
    if n <= 0 {
        Seq::empty()
    } else {
        side_moves_upto(b, n - 1) + square_moves(b, n - 1)
    }
}

/// Every legal move of the side to move: (source, (destination, promotion)).
pub open spec fn all_moves_spec(b: BoardSpec) -> Seq<(i8, (i8, FigureType))> {
    side_moves_upto(b, 64)
}

/// What every collected move satisfies: its source square holds a figure of
/// the side to move and the move itself is well shaped.
pub open spec fn side_move_ok(b: BoardSpec, e: (i8, (i8, FigureType))) -> bool {
    &&& 0 <= e.0 < 64
    &&& b.fields[e.0 as int].figure_color == b.active
    &&& b.fields[e.0 as int].figure_type != FigureType::NONE
    &&& move_shape_ok(b, e.0 as int, e.1)
}

proof fn lemma_legal_filter_keeps(b: BoardSpec, src: int, s: Seq<(i8, FigureType)>, j: int)
    requires
        forall|t: int| 0 <= t < s.len() ==> move_shape_ok(b, src, #[trigger] s[t]),
    ensures
        forall|q: int|
            0 <= q < crate::engine::legal_filter(b, src, s, j).len() ==> move_shape_ok(
                b,
                src,
                #[trigger] crate::engine::legal_filter(b, src, s, j)[q],
            ),
    decreases s.len() - j,
{
    if 0 <= j < s.len() {
        lemma_legal_filter_keeps(b, src, s, j + 1);
        let lf = crate::engine::legal_filter(b, src, s, j);
        let rest = crate::engine::legal_filter(b, src, s, j + 1);
        assert(move_shape_ok(b, src, s[j]));
        assert forall|q: int| 0 <= q < lf.len() implies move_shape_ok(b, src, lf[q]) by {
            if crate::engine::is_legal_spec(b, src, s[j]) {
                assert(lf == seq![s[j]] + rest);
                if q > 0 {
                    assert(lf[q] == rest[q - 1]);
                }
            } else {
                assert(lf == rest);
            }
        }
    }
}

proof fn lemma_tag_elems(b: BoardSpec, i: int, s: Seq<(i8, FigureType)>, j: int)
    requires
        0 <= i < 64,
        b.fields[i].figure_color == b.active,
        b.fields[i].figure_type != FigureType::NONE,
        forall|t: int| 0 <= t < s.len() ==> move_shape_ok(b, i, #[trigger] s[t]),
    ensures
        forall|q: int|
            0 <= q < tag_moves(i, s, j).len() ==> side_move_ok(b, #[trigger] tag_moves(i, s, j)[q]),
    decreases s.len() - j,
{
    if 0 <= j < s.len() {
        lemma_tag_elems(b, i, s, j + 1);
        let tm = tag_moves(i, s, j);
        let rest = tag_moves(i, s, j + 1);
        assert(tm == seq![(i as i8, s[j])] + rest);
        assert forall|q: int| 0 <= q < tm.len() implies side_move_ok(b, tm[q]) by {
            if q == 0 {
                assert(tm[q] == (i as i8, s[j]));
                assert(move_shape_ok(b, i, s[j]));
            } else {
                assert(tm[q] == rest[q - 1]);
            }
        }
    }
}

proof fn lemma_square_moves_ok(b: BoardSpec, i: int)
    requires
        board_ok(b),
        0 <= i < 64,
    ensures
        forall|q: int|
            0 <= q < square_moves(b, i).len() ==> side_move_ok(b, #[trigger] square_moves(b, i)[q]),
{
    if b.fields[i].figure_color == b.active {
        assert(color_ok(b.fields[i]));
        lemma_reachable_ok(b, i, true);
        lemma_legal_filter_keeps(b, i, crate::engine::reachable_spec(b, i, true), 0);
        lemma_tag_elems(b, i, legal_moves_spec(b, i), 0);
    }
}

proof fn lemma_side_moves_ok(b: BoardSpec, n: int)
    requires
        board_ok(b),
        0 <= n <= 64,
    ensures
        forall|q: int|
            0 <= q < side_moves_upto(b, n).len() ==> side_move_ok(
                b,
                #[trigger] side_moves_upto(b, n)[q],
            ),
    decreases n,
{
    if n > 0 {
        lemma_side_moves_ok(b, n - 1);
        lemma_square_moves_ok(b, n - 1);
        let pre = side_moves_upto(b, n - 1);
        let sq = square_moves(b, n - 1);
        assert(side_moves_upto(b, n) == pre + sq);
        assert forall|q: int| 0 <= q < (pre + sq).len() implies side_move_ok(b, (pre + sq)[q]) by {
            if q < pre.len() {
                assert((pre + sq)[q] == pre[q]);
            } else {
                assert((pre + sq)[q] == sq[q - pre.len()]);
            }
        }
    }
}

fn all_legal_moves(board: &Board) -> (r: Vec<(i8, (i8, FigureType))>)
    requires
        board_ok(board@),
    ensures
        r@ == all_moves_spec(board@),
{
    let ghost b = board@;
    let mut out: Vec<(i8, (i8, FigureType))> = Vec::new();
    let mut i: usize = 0;
    while i < 64
        invariant
            i <= 64,
            b == board@,
            board_ok(b),
            out@ == side_moves_upto(b, i as int),
        decreases 64 - i,
    {
        let field = board.fields[i];
        if field.figure_color == board.active {
            proof {
                assert(color_ok(b.fields[i as int]));
            }
            let moves = calc_legal_moves(i as i8, board);
            let ghost sq_start = out@;
            let mut j: usize = 0;
            while j < moves.len()
                invariant
                    j <= moves@.len(),
                    i < 64,
                    b == board@,
                    moves@ == legal_moves_spec(b, i as int),
                    sq_start == side_moves_upto(b, i as int),
                    sq_start + tag_moves(i as int, moves@, 0) == out@ + tag_moves(
                        i as int,
                        moves@,
                        j as int,
                    ),
                decreases moves@.len() - j,
            {
                let m = moves[j];
                let ghost prev = out@;
                out.push((i as i8, m));
                proof {
                    lemma_push_concat(prev, (i as i8, m));
                    lemma_concat_assoc(
                        prev,
                        seq![(i as i8, m)],
                        tag_moves(i as int, moves@, j as int + 1),
                    );
                }
                j += 1;
            }
            proof {
                lemma_seq_empty_right(out@);
                assert(out@ == sq_start + square_moves(b, i as int));
            }
        } else {
            proof {
                lemma_seq_empty_right(out@);
                assert(out@ == side_moves_upto(b, i as int) + square_moves(b, i as int));
            }
        }
        i += 1;
    }
    out
}

// ---------------------------------------------------------------------------
// The unpruned search: pseudo-legal generation with a post-hoc legality check
// at every node, no window and no cache. Kept beside the alpha-beta form for
// differential testing against exhaustive leaf counts.
// ---------------------------------------------------------------------------

pub open spec fn pseudo_square_moves(b: BoardSpec, i: int) -> Seq<(i8, (i8, FigureType))> {
    if b.fields[i].figure_color == b.active {
        tag_moves(i, crate::engine::reachable_spec(b, i, true), 0)
    } else {
        Seq::empty()
    }
}

pub open spec fn pseudo_side_upto(b: BoardSpec, n: int) -> Seq<(i8, (i8, FigureType))>
    decreases n,
{
    if n <= 0 {
        Seq::empty()
    } else {
        pseudo_side_upto(b, n - 1) + pseudo_square_moves(b, n - 1)
    }
}

/// Every pseudo-legal move of the side to move, castling transit validated.
pub open spec fn all_pseudo_spec(b: BoardSpec) -> Seq<(i8, (i8, FigureType))> {
    pseudo_side_upto(b, 64)
}

proof fn lemma_pseudo_square_ok(b: BoardSpec, i: int)
    requires
        board_ok(b),
        0 <= i < 64,
    ensures
        forall|q: int|
            0 <= q < pseudo_square_moves(b, i).len() ==> side_move_ok(
                b,
                #[trigger] pseudo_square_moves(b, i)[q],
            ),
{
    if b.fields[i].figure_color == b.active {
        assert(color_ok(b.fields[i]));
        lemma_reachable_ok(b, i, true);
        lemma_tag_elems(b, i, crate::engine::reachable_spec(b, i, true), 0);
    }
}

proof fn lemma_pseudo_side_ok(b: BoardSpec, n: int)
    requires
        board_ok(b),
        0 <= n <= 64,
    ensures
        forall|q: int|
            0 <= q < pseudo_side_upto(b, n).len() ==> side_move_ok(
                b,
                #[trigger] pseudo_side_upto(b, n)[q],
            ),
    decreases n,
{
    if n > 0 {
        lemma_pseudo_side_ok(b, n - 1);
        lemma_pseudo_square_ok(b, n - 1);
        let pre = pseudo_side_upto(b, n - 1);
        let sq = pseudo_square_moves(b, n - 1);
        assert(pseudo_side_upto(b, n) == pre + sq);
        assert forall|q: int| 0 <= q < (pre + sq).len() implies side_move_ok(b, (pre + sq)[q]) by {
            if q < pre.len() {
                assert((pre + sq)[q] == pre[q]);
            } else {
                assert((pre + sq)[q] == sq[q - pre.len()]);
            }
        }
    }
}

fn all_pseudo_moves(board: &Board) -> (r: Vec<(i8, (i8, FigureType))>)
    requires
        board_ok(board@),
    ensures
        r@ == all_pseudo_spec(board@),
{
    let ghost b = board@;
    let mut out: Vec<(i8, (i8, FigureType))> = Vec::new();
    let mut i: usize = 0;
    while i < 64
        invariant
            i <= 64,
            b == board@,
            board_ok(b),
            out@ == pseudo_side_upto(b, i as int),
        decreases 64 - i,
    {
        let field = board.fields[i];
        if field.figure_color == board.active {
            let moves = calc_reachable_fields(i as i8, board, true);
            let ghost sq_start = out@;
            let mut j: usize = 0;
            while j < moves.len()
                invariant
                    j <= moves@.len(),
                    i < 64,
                    b == board@,
                    moves@ == crate::engine::reachable_spec(b, i as int, true),
                    sq_start == pseudo_side_upto(b, i as int),
                    sq_start + tag_moves(i as int, moves@, 0) == out@ + tag_moves(
                        i as int,
                        moves@,
                        j as int,
                    ),
                decreases moves@.len() - j,
            {
                let m = moves[j];
                let ghost prev = out@;
                out.push((i as i8, m));
                proof {
                    lemma_push_concat(prev, (i as i8, m));
                    lemma_concat_assoc(
                        prev,
                        seq![(i as i8, m)],
                        tag_moves(i as int, moves@, j as int + 1),
                    );
                }
                j += 1;
            }
            proof {
                lemma_seq_empty_right(out@);
                assert(out@ == sq_start + pseudo_square_moves(b, i as int));
            }
        } else {
            proof {
                lemma_seq_empty_right(out@);
                assert(out@ == pseudo_side_upto(b, i as int) + pseudo_square_moves(b, i as int));
            }
        }
        i += 1;
    }
    out
}

/// One step of the unpruned move loop: play the pseudo-legal move, discard it
/// when it leaves the mover's own king attacked, otherwise negate the
/// recursive score. The chosen move is recorded at remaining depth 4 exactly,
/// so only a search started with depth 4 reports its move.
pub open spec fn naive_moves_fold(
    b: BoardSpec,
    moves: Seq<(i8, (i8, FigureType))>,
    j: int,
    depth: int,
    max: i32,
    best: (i8, (i8, FigureType)),
) -> (i32, (i8, (i8, FigureType)))
    decreases depth, 0int, moves.len() - j,
{
    if depth <= 0 || j < 0 || j >= moves.len() {
        (max, best)
    } else {
        let src = moves[j].0;
        let m = moves[j].1;
        let b2 = play_spec(b, src as int, m.0 as int, m.1);
        if !king_checked_spec(b2, b.active) {
            let sub = naive_rec(b2, depth - 1, best);
            let score = w_neg(sub.0);
            if score > max {
                let best2 = if depth == 4 {
                    (src, m)
                } else {
                    sub.1
                };
                naive_moves_fold(b, moves, j + 1, depth, score, best2)
            } else {
                naive_moves_fold(b, moves, j + 1, depth, max, sub.1)
            }
        } else {
            naive_moves_fold(b, moves, j + 1, depth, max, best)
        }
    }
}

/// The unpruned search: static evaluation at depth 0, else the move loop
/// starting from the loss sentinel (which a position without legal moves
/// therefore returns unchanged).
pub open spec fn naive_rec(b: BoardSpec, depth: int, best: (i8, (i8, FigureType))) -> (
    i32,
    (i8, (i8, FigureType)),
)
    decreases depth, 1int, 0int,
{
    if depth <= 0 {
        (eval_spec(b) as i32, best)
    } else {
        naive_moves_fold(b, all_pseudo_spec(b), 0, depth, -32767i32, best)
    }
}

/// The unpruned search, exactly `naive_rec` of its inputs: at each node it
/// generates every pseudo-legal move, discards post hoc those exposing the
/// mover's own king, and takes the best negated recursive score.
pub fn nega_max(board: &Board, depth: u8, best_move: &mut (i8, (i8, FigureType))) -> (r: i32)
    requires
        board_ok(board@),
    ensures
        ({
            let res = naive_rec(board@, depth as int, *old(best_move));
            r == res.0 && *final(best_move) == res.1
        }),
    decreases depth,
{
    if depth == 0 {
        return evaluate_position(board);
    }
    let moves = all_pseudo_moves(board);
    let ghost b = board@;
    let ghost all = moves@;
    let ghost init_best = *best_move;
    let ghost goal = naive_moves_fold(b, all, 0, depth as int, -32767i32, init_best);
    proof {
        lemma_pseudo_side_ok(b, 64);
    }
    let mut max: i32 = -32767;
    let mut j: usize = 0;
    while j < moves.len()
        invariant
            j <= all.len(),
            moves@ == all,
            all == all_pseudo_spec(b),
            b == board@,
            board_ok(b),
            depth >= 1,
            forall|q: int| 0 <= q < all.len() ==> side_move_ok(b, #[trigger] all[q]),
            goal == naive_moves_fold(b, all, j as int, depth as int, max, *best_move),
        decreases all.len() - j,
    {
        let (index, m) = moves[j];
        let mut board_cpy = board.duplicate();
        play_move(index, m, &mut board_cpy);
        proof {
            crate::engine::lemma_play_keeps_board_ok(b, index as int, m);
            crate::models::lemma_board_ok_gen_ok(board_cpy@);
        }
        if !is_king_checked(board.active, board_cpy.duplicate()) {
            let sub = nega_max(&board_cpy, depth - 1, best_move);
            let score = (0i32).wrapping_sub(sub);
            if score > max {
                max = score;
                if depth == 4 {
                    *best_move = (index, m);
                }
            }
        }
        j += 1;
    }
    max
}

// ---------------------------------------------------------------------------
// Negamax with alpha-beta pruning and the position-keyed evaluation cache.
// The search is mirrored exactly by `search_rec` / `search_moves`, so its
// score, its cache updates and its chosen move are deterministic functions of
// the position, the cache handed in, the depth and the window.
// ---------------------------------------------------------------------------

pub open spec fn w_neg(x: i32) -> i32 {
    vstd::wrapping::i32_specs::wrapping_sub(0i32, x)
}

/// One step of the move loop at `moves[j]`: play the move, take the cached
/// score when one is stored at sufficient depth, otherwise recurse with the
/// negated window, negate, apply the depth-parity perturbation (+1 at even
/// remaining depth, -1 at odd) and store; raise `max`, remember the move at
/// the root, and cut off as soon as `max` reaches `beta`.
pub open spec fn search_moves(
    b: BoardSpec,
    moves: Seq<(i8, (i8, FigureType))>,
    j: int,
    t: Map<u64, PositionDescription>,
    depth: int,
    max_depth: int,
    max: i32,
    beta: i32,
    best: (i8, (i8, FigureType)),
) -> (i32, Map<u64, PositionDescription>, (i8, (i8, FigureType)))
    decreases depth, 0int, moves.len() - j,
{
    if depth <= 0 || j < 0 || j >= moves.len() {
        (max, t, best)
    } else {
        let src = moves[j].0;
        let m = moves[j].1;
        let b2 = play_spec(b, src as int, m.0 as int, m.1);
        let h = hash_spec(b2);
        let hit = t.contains_key(h) && t[h].search_depth >= depth;
        let stepped = if hit {
            (t[h].score, t, best)
        } else {
            let sub = search_rec(b2, t, depth - 1, max_depth, w_neg(beta), w_neg(max), best);
            let s0 = w_neg(sub.0);
            let s1 = if depth % 2 == 0 {
                vstd::wrapping::i32_specs::wrapping_add(s0, 1)
            } else {
                vstd::wrapping::i32_specs::wrapping_sub(s0, 1)
            };
            (s1, sub.1.insert(h, PositionDescription { score: s1, search_depth: depth as u8 }), sub.2)
        };
        let score = stepped.0;
        let t1 = stepped.1;
        let best1 = stepped.2;
        if score > max {
            let best2 = if depth == max_depth {
                (src, m)
            } else {
                best1
            };
            if score >= beta {
                (score, t1, best2)
            } else {
                search_moves(b, moves, j + 1, t1, depth, max_depth, score, beta, best2)
            }
        } else {
            search_moves(b, moves, j + 1, t1, depth, max_depth, max, beta, best1)
        }
    }
}

/// The whole search at one node: static evaluation at depth 0; the loss
/// sentinel -32767 with no legal move and the king in check, 0 (stalemate)
/// with no legal move otherwise; else the move loop starting from `alpha`.
pub open spec fn search_rec(
    b: BoardSpec,
    t: Map<u64, PositionDescription>,
    depth: int,
    max_depth: int,
    alpha: i32,
    beta: i32,
    best: (i8, (i8, FigureType)),
) -> (i32, Map<u64, PositionDescription>, (i8, (i8, FigureType)))
    decreases depth, 1int, 0int,
{
    if depth <= 0 {
        (eval_spec(b) as i32, t, best)
    } else {
        let moves = all_moves_spec(b);
        if moves.len() == 0 {
            ((if king_checked_spec(b, b.active) {
                -32767i32
            } else {
                0i32
            }), t, best)
        } else {
            search_moves(b, moves, 0, t, depth, max_depth, alpha, beta, best)
        }
    }
}

fn nega_max_ab_rec(
    board: &Board,
    transposition_table: &mut HashMap<u64, PositionDescription>,
    depth: u8,
    max_depth: u8,
    alpha: i32,
    beta: i32,
    best_move: &mut (i8, (i8, FigureType)),
) -> (r: i32)
    requires
        board_ok(board@),
    ensures
        ({
            let res = search_rec(
                board@,
                old(transposition_table)@,
                depth as int,
                max_depth as int,
                alpha,
                beta,
                *old(best_move),
            );
            r == res.0 && final(transposition_table)@ == res.1 && *final(best_move) == res.2
        }),
    decreases depth,
{
    if depth == 0 {
        return evaluate_position(board);
    }
    let moves = all_legal_moves(board);
    if moves.len() == 0 {
        proof {
            crate::models::lemma_board_ok_gen_ok(board@);
        }
        if is_king_checked(board.active, board.duplicate()) {
            return -32767;
        } else {
            return 0;
        }
    }

    let ghost b = board@;
    let ghost all = moves@;
    let ghost init_t = transposition_table@;
    let ghost init_best = *best_move;
    let ghost goal = search_moves(
        b,
        all,
        0,
        init_t,
        depth as int,
        max_depth as int,
        alpha,
        beta,
        init_best,
    );
    proof {
        lemma_side_moves_ok(b, 64);
    }

    let mut max = alpha;
    let mut j: usize = 0;
    while j < moves.len()
        invariant
            j <= all.len(),
            moves@ == all,
            all == all_moves_spec(b),
            b == board@,
            board_ok(b),
            depth >= 1,
            all.len() > 0,
            init_t == old(transposition_table)@,
            init_best == *old(best_move),
            goal == search_moves(
                b,
                all,
                0,
                init_t,
                depth as int,
                max_depth as int,
                alpha,
                beta,
                init_best,
            ),
            forall|q: int| 0 <= q < all.len() ==> side_move_ok(b, #[trigger] all[q]),
            goal == search_moves(
                b,
                all,
                j as int,
                transposition_table@,
                depth as int,
                max_depth as int,
                max,
                beta,
                *best_move,
            ),
        decreases all.len() - j,
    {
        let ghost t0 = transposition_table@;
        let ghost best0 = *best_move;
        let ghost max0 = max;
        let (index, m) = moves[j];
        let mut board_cpy = board.duplicate();
        play_move(index, m, &mut board_cpy);
        proof {
            crate::engine::lemma_play_keeps_board_ok(b, index as int, m);
        }
        let ghost b2 = play_spec(b, index as int, m.0 as int, m.1);
        let mut score: i32 = 0;
        let mut position_found = false;

        let hash = calculate_hash(&board_cpy);
        proof {
            assert(board_cpy@ == b2);
            assert(hash == hash_spec(b2));
        }
        match transposition_table.get(&hash) {
            Some(position_desc) => {
                if position_desc.search_depth >= depth {
                    score = position_desc.score;
                    position_found = true;
                }
            },
            None => {},
        }
        proof {
            assert(position_found == (t0.contains_key(hash) && t0[hash].search_depth
                >= depth as int));
        }

        if !position_found {
            let sub = nega_max_ab_rec(
                &board_cpy,
                transposition_table,
                depth - 1,
                max_depth,
                (0i32).wrapping_sub(beta),
                (0i32).wrapping_sub(max),
                best_move,
            );
            proof {
                let res_sub = search_rec(
                    b2,
                    t0,
                    depth as int - 1,
                    max_depth as int,
                    w_neg(beta),
                    w_neg(max0),
                    best0,
                );
                assert(sub == res_sub.0 && transposition_table@ == res_sub.1 && *best_move
                    == res_sub.2);
            }
            score = (0i32).wrapping_sub(sub);
            if depth % 2 == 0 {
                score = score.wrapping_add(1);
            } else {
                score = score.wrapping_sub(1);
            }
            transposition_table.insert(
                hash,
                PositionDescription { score, search_depth: depth },
            );
        }
        let ghost stepped = ({
            let hit = t0.contains_key(hash_spec(b2)) && t0[hash_spec(b2)].search_depth
                >= depth as int;
            if hit {
                (t0[hash_spec(b2)].score, t0, best0)
            } else {
                let sub = search_rec(
                    b2,
                    t0,
                    depth as int - 1,
                    max_depth as int,
                    w_neg(beta),
                    w_neg(max0),
                    best0,
                );
                let s0 = w_neg(sub.0);
                let s1 = if depth as int % 2 == 0 {
                    vstd::wrapping::i32_specs::wrapping_add(s0, 1)
                } else {
                    vstd::wrapping::i32_specs::wrapping_sub(s0, 1)
                };
                (
                    s1,
                    sub.1.insert(
                        hash_spec(b2),
                        PositionDescription { score: s1, search_depth: depth },
                    ),
                    sub.2,
                )
            }
        });
        proof {
            assert(score == stepped.0 && transposition_table@ == stepped.1 && *best_move
                == stepped.2);
        }

        if score > max {
            max = score;
            if depth == max_depth {
                *best_move = (index, m);
            }
            if max >= beta {
                proof {
                    assert(goal == (max, transposition_table@, *best_move));
                }
                return max;
            }
        }
        j += 1;
        proof {
            assert(goal == search_moves(
                b,
                all,
                j as int,
                transposition_table@,
                depth as int,
                max_depth as int,
                max,
                beta,
                *best_move,
            ));
        }
    }
    max
}

/// The engine's reply: negamax with alpha-beta over `transposition_table`,
/// searching `depth` plies inside the sentinel window (-32767, 32767). The
/// score of the best reply is returned; the chosen move is left in
/// `best_move`, which stays untouched when the side to move has no legal move.
/// Score, cache and chosen move are exactly `search_rec` of the inputs, so two
/// calls on equal inputs return the same answer. Freshly computed scores carry
/// the depth-parity perturbation before they are stored and compared - a
/// deliberate tie-break bias of this search design that slightly skews
/// absolute scores; whether it is wanted is an open question, so it is kept
/// rather than silently normalized away.
pub fn nega_max_ab(
    board: &Board,
    transposition_table: &mut HashMap<u64, PositionDescription>,
    depth: u8,
    best_move: &mut (i8, (i8, FigureType)),
) -> (r: i32)
    requires
        board_ok(board@),
    ensures
        ({
            let res = search_rec(
                board@,
                old(transposition_table)@,
                depth as int,
                depth as int,
                -32767i32,
                32767i32,
                *old(best_move),
            );
            r == res.0 && final(transposition_table)@ == res.1 && *final(best_move) == res.2
        }),
{
    nega_max_ab_rec(board, transposition_table, depth, depth, -32767, 32767, best_move)
}

} // verus!
