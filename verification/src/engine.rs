use vstd::prelude::*;

use crate::models::{
    Board, BoardSpec, CastleRights, Field, FigureColor, FigureType, board_ok, color_ok, empty_field,
    gen_ok, pawn_ok,
};

verus! {

pub open spec fn in_board(x: int, y: int) -> bool {
    0 <= x < 8 && 0 <= y < 8
}

/// The color occupying the square at file `x`, row `y`.
pub open spec fn occ(b: BoardSpec, x: int, y: int) -> FigureColor {
    b.fields[x + y * 8].figure_color
}

pub open spec fn abs_i(x: int) -> int {
    if x < 0 {
        -x
    } else {
        x
    }
}

/// A king moving onto a square held by a rook of its own side encodes castling.
pub open spec fn is_castle_move(b: BoardSpec, src: int, tgt: int) -> bool {
    &&& b.fields[src].figure_type == FigureType::KING
    &&& b.fields[tgt].figure_type == FigureType::ROOK
    &&& b.fields[src].figure_color == b.fields[tgt].figure_color
}

/// What `play_move` asks of its input: indices on the board, and enough room
/// for the two moves that write beside their target square (an en-passant
/// capture removes the pawn behind the destination; castling places the king
/// two files toward the rook).
pub open spec fn play_pre(b: BoardSpec, src: int, tgt: int) -> bool {
    &&& b.fields.len() == 64
    &&& 0 <= src < 64
    &&& 0 <= tgt < 64
    &&& ({
        let sf = b.fields[src];
        (sf.figure_type == FigureType::PAWN && abs_i(src - tgt) != 16 && abs_i(src - tgt) != 8
            && b.fields[tgt].figure_type == FigureType::NONE) ==> (if sf.figure_color
            == FigureColor::WHITE {
            tgt + 8 < 64
        } else {
            tgt - 8 >= 0
        })
    })
    &&& (is_castle_move(b, src, tgt) ==> (if tgt % 8 != 0 {
        src + 2 < 64
    } else {
        src - 2 >= 0
    }))
}

/// The position after applying the move `(tgt, promo)` to the figure on `src`:
/// en-passant bookkeeping first, then castling-rights revocation (a corner
/// rook moving or being captured forfeits that corner's flag; a non-castling
/// king move forfeits both of its side's flags), then the figure placement
/// (castling, promotion on the far rank, or the plain move), and last the side
/// to move flips.
pub open spec fn play_spec(b: BoardSpec, src: int, tgt: int, promo: FigureType) -> BoardSpec {
    let sf = b.fields[src];
    let tf = b.fields[tgt];
    let diff = abs_i(src - tgt);
    let ep1: int = if sf.figure_type == FigureType::PAWN && diff == 16 {
        (tgt - src) / 2 + src
    } else {
        -1
    };
    let f1 = if sf.figure_type == FigureType::PAWN && diff != 16 && diff != 8 && tf.figure_type
        == FigureType::NONE {
        if sf.figure_color == FigureColor::WHITE {
            b.fields.update(tgt + 8, empty_field())
        } else {
            b.fields.update(tgt - 8, empty_field())
        }
    } else {
        b.fields
    };
    let cr1 = if sf.figure_type == FigureType::ROOK {
        CastleRights {
            q: b.castle_rights.q && src != 0,
            k: b.castle_rights.k && src != 7,
            Q: b.castle_rights.Q && src != 56,
            K: b.castle_rights.K && src != 63,
        }
    } else {
        b.castle_rights
    };
    let castle = is_castle_move(b, src, tgt);
    let cr2 = if sf.figure_type == FigureType::KING && !castle {
        if sf.figure_color == FigureColor::WHITE {
            CastleRights { K: false, Q: false, k: cr1.k, q: cr1.q }
        } else {
            CastleRights { K: cr1.K, Q: cr1.Q, k: false, q: false }
        }
    } else {
        cr1
    };
    let side: int = if tgt % 8 != 0 {
        1
    } else {
        -1
    };
    let cr3 = if castle {
        if side == 1 {
            if sf.figure_color == FigureColor::WHITE {
                CastleRights { K: false, Q: cr2.Q, k: cr2.k, q: cr2.q }
            } else {
                CastleRights { K: cr2.K, Q: cr2.Q, k: false, q: cr2.q }
            }
        } else {
            if sf.figure_color == FigureColor::WHITE {
                CastleRights { K: cr2.K, Q: false, k: cr2.k, q: cr2.q }
            } else {
                CastleRights { K: cr2.K, Q: cr2.Q, k: cr2.k, q: false }
            }
        }
    } else {
        cr2
    };
    let cr4 = CastleRights {
        q: cr3.q && tgt != 0,
        k: cr3.k && tgt != 7,
        Q: cr3.Q && tgt != 56,
        K: cr3.K && tgt != 63,
    };
    let f2 = if castle {
        f1.update(src, empty_field()).update(tgt, empty_field()).update(
            src + side,
            Field { figure_type: FigureType::ROOK, figure_color: sf.figure_color },
        ).update(src + 2 * side, Field { figure_type: FigureType::KING, figure_color: sf.figure_color })
    } else if sf.figure_type == FigureType::PAWN && (tgt < 8 || tgt >= 56) {
        f1.update(tgt, Field { figure_type: promo, figure_color: sf.figure_color }).update(
            src,
            empty_field(),
        )
    } else {
        f1.update(tgt, sf).update(src, empty_field())
    };
    BoardSpec {
        fields: f2,
        active: if b.active == FigureColor::WHITE {
            FigureColor::BLACK
        } else {
            FigureColor::WHITE
        },
        castle_rights: cr4,
        en_passant: ep1,
    }
}

// ---------------------------------------------------------------------------
// Pseudo-legal reachability: one generation rule per piece kind. Each spec
// function mirrors the sequence the generator emits, in emission order.
// ---------------------------------------------------------------------------

/// King steps, one square in every direction, skipping friendly-held squares.
/// `k` flattens the 3x3 neighbourhood scan: dx = k/3 - 1, dy = k%3 - 1.
pub open spec fn king_adj(b: BoardSpec, x: int, y: int, c: FigureColor, k: int) -> Seq<
    (i8, FigureType),
>
    decreases 9 - k,
{
    if k < 0 || k >= 9 {
        Seq::empty()
    } else {
        let dx = k / 3 - 1;
        let dy = k % 3 - 1;
        let rest = king_adj(b, x, y, c, k + 1);
        if dx == 0 && dy == 0 {
            rest
        } else if in_board(x + dx, y + dy) && occ(b, x + dx, y + dy) != c {
            seq![(((x + dx) + (y + dy) * 8) as i8, FigureType::NONE)] + rest
        } else {
            rest
        }
    }
}

/// The castling flag guarding the given corner for side `c`.
pub open spec fn castle_right_ok(b: BoardSpec, c: FigureColor, corner: int) -> bool {
    if corner % 8 == 0 {
        if c == FigureColor::BLACK {
            b.castle_rights.q
        } else if c == FigureColor::WHITE {
            b.castle_rights.Q
        } else {
            false
        }
    } else {
        if c == FigureColor::BLACK {
            b.castle_rights.k
        } else if c == FigureColor::WHITE {
            b.castle_rights.K
        } else {
            false
        }
    }
}

/// The squares between king and corner rook are empty.
pub open spec fn castle_path_clear(b: BoardSpec, x: int, y: int, corner: int) -> bool {
    if corner % 8 == 0 {
        occ(b, x - 1, y) == FigureColor::NONE && occ(b, x - 2, y) == FigureColor::NONE && occ(
            b,
            x - 3,
            y,
        ) == FigureColor::NONE
    } else {
        occ(b, x + 1, y) == FigureColor::NONE && occ(b, x + 2, y) == FigureColor::NONE
    }
}

/// With `chk` set, no square the king transits - origin, intermediate,
/// destination - may be attacked. With `chk` clear the test is skipped, which
/// breaks the mutual recursion between castling and check detection.
pub open spec fn castle_transit_safe(
    b: BoardSpec,
    x: int,
    y: int,
    c: FigureColor,
    corner: int,
    chk: bool,
) -> bool
    decreases (if chk { 1int } else { 0int }), 6int,
{
    if !chk {
        true
    } else if corner % 8 == 0 {
        !checked_spec(b, x + y * 8, c) && !checked_spec(b, x - 1 + y * 8, c) && !checked_spec(
            b,
            x - 2 + y * 8,
            c,
        )
    } else {
        !checked_spec(b, x + y * 8, c) && !checked_spec(b, x + 1 + y * 8, c) && !checked_spec(
            b,
            x + 2 + y * 8,
            c,
        )
    }
}

/// The castling pseudo-move toward one corner, encoded as the king moving onto
/// its own rook's square; emitted only when the rook stands there, the flag is
/// set, the path is clear and (with `chk`) the transit is unattacked.
pub open spec fn castle_emit(
    b: BoardSpec,
    x: int,
    y: int,
    c: FigureColor,
    corner: int,
    chk: bool,
) -> Seq<(i8, FigureType)>
    decreases (if chk { 1int } else { 0int }), 7int,
{
    if b.fields[corner].figure_type == FigureType::ROOK && b.fields[corner].figure_color == c
        && castle_right_ok(b, c, corner) && castle_path_clear(b, x, y, corner)
        && castle_transit_safe(b, x, y, c, corner, chk) {
        seq![(corner as i8, FigureType::NONE)]
    } else {
        Seq::empty()
    }
}

/// Both castling options of a king standing on its home square; queen-side
/// corner first, as the generator emits them.
pub open spec fn king_castles(
    b: BoardSpec,
    src: int,
    x: int,
    y: int,
    c: FigureColor,
    chk: bool,
) -> Seq<(i8, FigureType)>
    decreases (if chk { 1int } else { 0int }), 8int,
{
    let i: int = if c == FigureColor::BLACK {
        0
    } else {
        1
    };
    if src != 4 + i * 56 {
        Seq::empty()
    } else {
        castle_emit(b, x, y, c, i * 56, chk) + castle_emit(b, x, y, c, i * 56 + 7, chk)
    }
}

/// The forward direction of a pawn: white pawns move toward row 0.
pub open spec fn pawn_dy(c: FigureColor) -> int {
    if c == FigureColor::WHITE {
        1
    } else {
        -1
    }
}

/// A move landing on the far rank is emitted once per promotion choice.
pub open spec fn promo_seq(d: int) -> Seq<(i8, FigureType)> {
    seq![
        (d as i8, FigureType::QUEEN),
        (d as i8, FigureType::KNIGHT),
        (d as i8, FigureType::BISHOP),
        (d as i8, FigureType::ROOK),
    ]
}

/// One step forward if empty, plus the double step from the home rank when
/// both squares are empty.
pub open spec fn pawn_forward(b: BoardSpec, x: int, y: int, c: FigureColor) -> Seq<
    (i8, FigureType),
> {
    let dy = pawn_dy(c);
    if occ(b, x, y - dy) == FigureColor::NONE {
        let one = if y - dy == 0 || y - dy == 7 {
            promo_seq(x + (y - dy) * 8)
        } else {
            seq![((x + (y - dy) * 8) as i8, FigureType::NONE)]
        };
        let two = if (y + dy == 0 || y + dy == 7) && occ(b, x, y - dy * 2) == FigureColor::NONE {
            seq![((x + (y - dy * 2) * 8) as i8, FigureType::NONE)]
        } else {
            Seq::empty()
        };
        one + two
    } else {
        Seq::empty()
    }
}

/// A diagonal capture toward file offset `dx`: the target square holds another
/// side's figure or is the en-passant target.
pub open spec fn pawn_capture(
    b: BoardSpec,
    x: int,
    y: int,
    c: FigureColor,
    ep: int,
    dx: int,
) -> Seq<(i8, FigureType)> {
    let dy = pawn_dy(c);
    if 0 <= x + dx < 8 {
        let o = occ(b, x + dx, y - dy);
        if (o != FigureColor::NONE || (x + dx + (y - dy) * 8) == ep) && o != c {
            if y - dy == 0 || y - dy == 7 {
                promo_seq(x + dx + (y - dy) * 8)
            } else {
                seq![((x + dx + (y - dy) * 8) as i8, FigureType::NONE)]
            }
        } else {
            Seq::empty()
        }
    } else {
        Seq::empty()
    }
}

pub open spec fn pawn_moves(b: BoardSpec, x: int, y: int, c: FigureColor, ep: int) -> Seq<
    (i8, FigureType),
> {
    pawn_forward(b, x, y, c) + pawn_capture(b, x, y, c, ep, -1) + pawn_capture(b, x, y, c, ep, 1)
}

/// Knight jumps: the offsets with |dx| + |dy| = 3 inside the 5x5 neighbourhood
/// scan, dx = k/5 - 2, dy = k%5 - 2, skipping friendly-held squares.
pub open spec fn knight_moves(b: BoardSpec, x: int, y: int, c: FigureColor, k: int) -> Seq<
    (i8, FigureType),
>
    decreases 25 - k,
{
    if k < 0 || k >= 25 {
        Seq::empty()
    } else {
        let dx = k / 5 - 2;
        let dy = k % 5 - 2;
        let rest = knight_moves(b, x, y, c, k + 1);
        if abs_i(dx) + abs_i(dy) == 3 && in_board(x + dx, y + dy) && occ(b, x + dx, y + dy) != c {
            seq![(((x + dx) + (y + dy) * 8) as i8, FigureType::NONE)] + rest
        } else {
            rest
        }
    }
}

/// Which of the eight directions a sliding piece of the given kind casts rays
/// along: orthogonal for the rook, diagonal for the bishop, both for the queen.
pub open spec fn dir_ok(kind: FigureType, dx: int, dy: int) -> bool {
    if kind == FigureType::ROOK {
        !((dy != 0 && dx != 0) || (dx == 0 && dy == 0))
    } else if kind == FigureType::BISHOP {
        !(!(dy != 0 && dx != 0) || (dx == 0 && dy == 0))
    } else {
        !(dx == 0 && dy == 0)
    }
}

/// One ray, one square at a time from step `i`: stop before a friendly figure,
/// stop after (inclusive) another side's figure, continue through empty
/// squares to the board edge.
pub open spec fn ray(
    b: BoardSpec,
    x: int,
    y: int,
    c: FigureColor,
    dx: int,
    dy: int,
    i: int,
) -> Seq<(i8, FigureType)>
    decreases 8 - i,
{
    if i < 1 || i >= 8 {
        Seq::empty()
    } else if !in_board(x + dx * i, y + dy * i) {
        ray(b, x, y, c, dx, dy, i + 1)
    } else if occ(b, x + dx * i, y + dy * i) == c {
        Seq::empty()
    } else if occ(b, x + dx * i, y + dy * i) != FigureColor::NONE {
        seq![(((x + dx * i) + (y + dy * i) * 8) as i8, FigureType::NONE)]
    } else {
        seq![(((x + dx * i) + (y + dy * i) * 8) as i8, FigureType::NONE)] + ray(
            b,
            x,
            y,
            c,
            dx,
            dy,
            i + 1,
        )
    }
}

/// All rays of a sliding piece, directions scanned as dx = k/3 - 1,
/// dy = k%3 - 1 and filtered by `dir_ok`.
pub open spec fn slide(
    b: BoardSpec,
    x: int,
    y: int,
    c: FigureColor,
    kind: FigureType,
    k: int,
) -> Seq<(i8, FigureType)>
    decreases 9 - k,
{
    if k < 0 || k >= 9 {
        Seq::empty()
    } else {
        let dx = k / 3 - 1;
        let dy = k % 3 - 1;
        let rest = slide(b, x, y, c, kind, k + 1);
        if dir_ok(kind, dx, dy) {
            ray(b, x, y, c, dx, dy, 1) + rest
        } else {
            rest
        }
    }
}

/// Every pseudo-legal destination (with promotion choice, or `NONE`) of the
/// figure on `src`, in emission order; an empty square yields the degenerate
/// `(-1, NONE)`. With `chk` set, castling additionally requires an unattacked
/// transit.
pub open spec fn reachable_spec(b: BoardSpec, src: int, chk: bool) -> Seq<(i8, FigureType)>
    decreases (if chk { 1int } else { 0int }), 9int,
{
    let f = b.fields[src];
    let x = src % 8;
    let y = src / 8;
    match f.figure_type {
        FigureType::KING => king_adj(b, x, y, f.figure_color, 0) + king_castles(
            b,
            src,
            x,
            y,
            f.figure_color,
            chk,
        ),
        FigureType::PAWN => pawn_moves(b, x, y, f.figure_color, b.en_passant),
        FigureType::KNIGHT => knight_moves(b, x, y, f.figure_color, 0),
        FigureType::ROOK => slide(b, x, y, f.figure_color, FigureType::ROOK, 0),
        FigureType::BISHOP => slide(b, x, y, f.figure_color, FigureType::BISHOP, 0),
        FigureType::QUEEN => slide(b, x, y, f.figure_color, FigureType::QUEEN, 0),
        FigureType::NONE => seq![(-1i8, FigureType::NONE)],
    }
}

/// The probed board of the check detector: an empty probed square temporarily
/// carries color `c` (and no figure), so pawn capture generation sees it as a
/// capturable target.
pub open spec fn phantom(b: BoardSpec, idx: int, c: FigureColor) -> BoardSpec {
    if b.fields[idx].figure_type == FigureType::NONE {
        BoardSpec {
            fields: b.fields.update(idx, Field { figure_type: FigureType::NONE, figure_color: c }),
            active: b.active,
            castle_rights: b.castle_rights,
            en_passant: b.en_passant,
        }
    } else {
        b
    }
}

pub open spec fn seq_has_dest(s: Seq<(i8, FigureType)>, d: int) -> bool {
    exists|j: int| 0 <= j < s.len() && (#[trigger] s[j]).0 as int == d
}

/// Square `idx` is attacked from side `c`'s point of view: some figure of
/// another color pseudo-legally reaches it (castling transit not re-checked).
pub open spec fn checked_spec(b: BoardSpec, idx: int, c: FigureColor) -> bool
    decreases 0int, 10int,
{
    let b2 = phantom(b, idx, c);
    exists|i: int|
        0 <= i < 64 && (#[trigger] b2.fields[i]).figure_color != FigureColor::NONE
            && b2.fields[i].figure_color != c && seq_has_dest(reachable_spec(b2, i, false), idx)
}

/// The square of side `c`'s king: the last matching square of the scan, or 0
/// when none matches.
pub open spec fn king_idx_upto(b: BoardSpec, c: FigureColor, n: int) -> int
    decreases n,
{
    if n <= 0 {
        0
    } else if b.fields[n - 1].figure_color == c && b.fields[n - 1].figure_type == FigureType::KING {
        n - 1
    } else {
        king_idx_upto(b, c, n - 1)
    }
}

/// Side `c`'s king square is attacked.
pub open spec fn king_checked_spec(b: BoardSpec, c: FigureColor) -> bool {
    let k = king_idx_upto(b, c, 64);
    checked_spec(b, k, b.fields[k].figure_color)
}

fn is_occupied(x: i8, y: i8, board: &Board) -> (r: FigureColor)
    requires
        board@.fields.len() == 64,
        in_board(x as int, y as int),
    ensures
        r == occ(board@, x as int, y as int),
{
    board.fields[(x + y * 8) as usize].figure_color
}

pub(crate) proof fn lemma_seq_empty_right<T>(s: Seq<T>)
    ensures
        s + Seq::<T>::empty() == s,
{
    assert(s + Seq::<T>::empty() =~= s);
}

pub(crate) proof fn lemma_seq_empty_left<T>(s: Seq<T>)
    ensures
        Seq::<T>::empty() + s == s,
{
    assert(Seq::<T>::empty() + s =~= s);
}

pub(crate) proof fn lemma_push_concat<T>(s: Seq<T>, x: T)
    ensures
        s.push(x) == s + seq![x],
{
    assert(s.push(x) =~= s + seq![x]);
}

pub(crate) proof fn lemma_concat_assoc<T>(a: Seq<T>, b: Seq<T>, c: Seq<T>)
    ensures
        (a + b) + c == a + (b + c),
{
    assert((a + b) + c =~= a + (b + c));
}

fn has_dest(v: &Vec<(i8, FigureType)>, d: i8) -> (r: bool)
    ensures
        r == seq_has_dest(v@, d as int),
{
    let mut j: usize = 0;
    while j < v.len()
        invariant
            j <= v.len(),
            forall|t: int| 0 <= t < j ==> (#[trigger] v@[t]).0 as int != d as int,
        decreases v.len() - j,
    {
        if v[j].0 == d {
            proof {
                assert(0 <= j < v@.len() && v@[j as int].0 as int == d as int);
            }
            return true;
        }
        j += 1;
    }
    false
}

/// True when any figure of another color pseudo-legally reaches `field_index`,
/// from side `figure_color`'s point of view; an empty probed square is first
/// painted with that color so pawn captures see it.
pub fn is_checked(field_index: i8, figure_color: FigureColor, board: Board) -> (r: bool)
    requires
        gen_ok(board@),
        0 <= field_index < 64,
    ensures
        r == checked_spec(board@, field_index as int, figure_color),
    decreases 0int, 3int,
{
    let mut board_cpy = board;
    let check_field = board_cpy.fields[field_index as usize];

    if check_field.figure_type == FigureType::NONE {
        board_cpy.fields.set(
            field_index as usize,
            Field { figure_type: FigureType::NONE, figure_color },
        );
    }
    proof {
        assert(board_cpy@ =~= phantom(board@, field_index as int, figure_color));
        assert forall|t: int| 0 <= t < 64 implies pawn_ok(
            #[trigger] board_cpy@.fields[t],
            t,
        ) by {
            if t != field_index as int {
                assert(board_cpy@.fields[t] == board@.fields[t]);
            }
        }
        assert(gen_ok(board_cpy@));
    }

    let mut i: usize = 0;
    while i < 64
        invariant
            i <= 64,
            0 <= field_index < 64,
            gen_ok(board_cpy@),
            board_cpy@ == phantom(board@, field_index as int, figure_color),
            forall|t: int|
                0 <= t < i ==> !((#[trigger] board_cpy@.fields[t]).figure_color
                    != FigureColor::NONE && board_cpy@.fields[t].figure_color != figure_color
                    && seq_has_dest(
                    reachable_spec(board_cpy@, t, false),
                    field_index as int,
                )),
        decreases 64 - i,
    {
        let field = board_cpy.fields[i];
        if field.figure_color != FigureColor::NONE && field.figure_color != figure_color {
            let reachable_fields = calc_reachable_fields(i as i8, &board_cpy, false);
            if has_dest(&reachable_fields, field_index) {
                proof {
                    let b2 = phantom(board@, field_index as int, figure_color);
                    assert(0 <= i < 64 && b2.fields[i as int].figure_color != FigureColor::NONE
                        && b2.fields[i as int].figure_color != figure_color && seq_has_dest(
                        reachable_spec(b2, i as int, false),
                        field_index as int,
                    ));
                }
                return true;
            }
        }
        i += 1;
    }
    false
}

/// Locates side `figure_color`'s king (the last matching square of the scan)
/// and asks whether its square is attacked.
pub fn is_king_checked(figure_color: FigureColor, board: Board) -> (r: bool)
    requires
        gen_ok(board@),
    ensures
        r == king_checked_spec(board@, figure_color),
{
    let mut king_field_index: i8 = 0;
    let mut i: usize = 0;
    while i < 64
        invariant
            i <= 64,
            gen_ok(board@),
            0 <= king_field_index < 64,
            king_field_index as int == king_idx_upto(board@, figure_color, i as int),
        decreases 64 - i,
    {
        let field = board.fields[i];
        if field.figure_color == figure_color && field.figure_type == FigureType::KING {
            king_field_index = i as i8;
        }
        i += 1;
    }
    let probe_color = board.fields[king_field_index as usize].figure_color;
    is_checked(king_field_index, probe_color, board)
}

/// Appends the castling pseudo-move toward `corner`, when its conditions hold.
fn try_castle(
    board: &Board,
    vec: &mut Vec<(i8, FigureType)>,
    x: i8,
    y: i8,
    c: FigureColor,
    corner: i8,
    check: bool,
)
    requires
        gen_ok(board@),
        x == 4,
        y == 0 || y == 7,
        corner as int == y * 8 || corner as int == y * 8 + 7,
    ensures
        final(vec)@ == old(vec)@ + castle_emit(
            board@,
            x as int,
            y as int,
            c,
            corner as int,
            check,
        ),
    decreases (if check { 1int } else { 0int }), 1int,
{
    let corner_field = board.fields[corner as usize];
    if corner_field.figure_type != FigureType::ROOK || corner_field.figure_color != c {
        proof {
            lemma_seq_empty_right(vec@);
        }
        return ;
    }
    let rights_ok = if corner % 8 == 0 {
        if c == FigureColor::BLACK {
            board.castle_rights.q
        } else if c == FigureColor::WHITE {
            board.castle_rights.Q
        } else {
            false
        }
    } else {
        if c == FigureColor::BLACK {
            board.castle_rights.k
        } else if c == FigureColor::WHITE {
            board.castle_rights.K
        } else {
            false
        }
    };
    if !rights_ok {
        proof {
            lemma_seq_empty_right(vec@);
        }
        return ;
    }
    let path_clear = if corner % 8 == 0 {
        is_occupied(x - 1, y, board) == FigureColor::NONE && is_occupied(x - 2, y, board)
            == FigureColor::NONE && is_occupied(x - 3, y, board) == FigureColor::NONE
    } else {
        is_occupied(x + 1, y, board) == FigureColor::NONE && is_occupied(x + 2, y, board)
            == FigureColor::NONE
    };
    if !path_clear {
        proof {
            lemma_seq_empty_right(vec@);
        }
        return ;
    }
    let mut transit_safe = true;
    if check {
        if corner % 8 == 0 {
            transit_safe = !is_checked(x + y * 8, c, board.duplicate()) && !is_checked(
                x - 1 + y * 8,
                c,
                board.duplicate(),
            ) && !is_checked(x - 2 + y * 8, c, board.duplicate());
        } else {
            transit_safe = !is_checked(x + y * 8, c, board.duplicate()) && !is_checked(
                x + 1 + y * 8,
                c,
                board.duplicate(),
            ) && !is_checked(x + 2 + y * 8, c, board.duplicate());
        }
    }
    if transit_safe {
        vec.push((corner, FigureType::NONE));
        proof {
            lemma_push_concat(old(vec)@, (corner, FigureType::NONE));
        }
    } else {
        proof {
            lemma_seq_empty_right(vec@);
        }
    }
}

/// Appends the pawn's diagonal capture toward file offset `dx`.
fn pawn_capture_into(
    board: &Board,
    vec: &mut Vec<(i8, FigureType)>,
    x: i8,
    y: i8,
    c: FigureColor,
    dx: i8,
)
    requires
        gen_ok(board@),
        0 <= x < 8,
        0 <= y < 8,
        dx == -1 || dx == 1,
        0 <= y - pawn_dy(c) < 8,
    ensures
        final(vec)@ == old(vec)@ + pawn_capture(
            board@,
            x as int,
            y as int,
            c,
            board@.en_passant,
            dx as int,
        ),
{
    let dy: i8 = if c == FigureColor::WHITE {
        1
    } else {
        -1
    };
    if x + dx >= 0 && x + dx < 8 {
        let occupation = is_occupied(x + dx, y - dy, board);
        if (occupation != FigureColor::NONE || (x + dx + (y - dy) * 8) == board.en_passant)
            && occupation != c {
            if y - dy == 0 || y - dy == 7 {
                vec.push((x + dx + (y - dy) * 8, FigureType::QUEEN));
                vec.push((x + dx + (y - dy) * 8, FigureType::KNIGHT));
                vec.push((x + dx + (y - dy) * 8, FigureType::BISHOP));
                vec.push((x + dx + (y - dy) * 8, FigureType::ROOK));
            } else {
                vec.push((x + dx + (y - dy) * 8, FigureType::NONE));
            }
        }
    }
    proof {
        assert(vec@ =~= old(vec)@ + pawn_capture(
            board@,
            x as int,
            y as int,
            c,
            board@.en_passant,
            dx as int,
        ));
    }
}

/// Appends all ray moves of a sliding piece of the given kind.
fn slide_into(
    board: &Board,
    vec: &mut Vec<(i8, FigureType)>,
    x: i8,
    y: i8,
    c: FigureColor,
    kind: FigureType,
)
    requires
        gen_ok(board@),
        0 <= x < 8,
        0 <= y < 8,
    ensures
        final(vec)@ == old(vec)@ + slide(board@, x as int, y as int, c, kind, 0),
{
    let ghost b = board@;
    let ghost xi = x as int;
    let ghost yi = y as int;
    let ghost full = old(vec)@ + slide(b, xi, yi, c, kind, 0);
    let mut k: usize = 0;
    while k < 9
        invariant
            k <= 9,
            gen_ok(b),
            b == board@,
            xi == x as int,
            yi == y as int,
            0 <= xi < 8,
            0 <= yi < 8,
            full == old(vec)@ + slide(b, xi, yi, c, kind, 0),
            full == vec@ + slide(b, xi, yi, c, kind, k as int),
        decreases 9 - k,
    {
        let dx: i8 = (k / 3) as i8 - 1;
        let dy: i8 = (k % 3) as i8 - 1;
        let take_dir = if kind == FigureType::ROOK {
            !((dy != 0 && dx != 0) || (dx == 0 && dy == 0))
        } else if kind == FigureType::BISHOP {
            !(!(dy != 0 && dx != 0) || (dx == 0 && dy == 0))
        } else {
            !(dx == 0 && dy == 0)
        };
        if take_dir {
            proof {
                lemma_concat_assoc(
                    vec@,
                    ray(b, xi, yi, c, dx as int, dy as int, 1),
                    slide(b, xi, yi, c, kind, k as int + 1),
                );
            }
            let mut i: i8 = 1;
            let mut done = false;
            while i < 8
                invariant
                    1 <= i <= 8,
                    gen_ok(b),
                    b == board@,
                    xi == x as int,
                    yi == y as int,
                    0 <= xi < 8,
                    0 <= yi < 8,
                    -1 <= dx <= 1,
                    -1 <= dy <= 1,
                    !done ==> full == (vec@ + ray(b, xi, yi, c, dx as int, dy as int, i as int))
                        + slide(b, xi, yi, c, kind, k as int + 1),
                    done ==> full == vec@ + slide(b, xi, yi, c, kind, k as int + 1),
                decreases 8 - i,
            {
                if !done {
                    let ghost prev = vec@;
                    proof {
                        assert(-8 <= dx as int * i as int <= 8 && -8 <= dy as int * i as int
                            <= 8) by (nonlinear_arith)
                            requires
                                -1 <= dx as int <= 1,
                                -1 <= dy as int <= 1,
                                1 <= i as int <= 8,
                        ;
                    }
                    if dx * i + x >= 0 && dx * i + x < 8 && dy * i + y >= 0 && dy * i + y < 8 {
                        let o = is_occupied(dx * i + x, dy * i + y, board);
                        if o == c {
                            done = true;
                            proof {
                                assert(ray(b, xi, yi, c, dx as int, dy as int, i as int)
                                    =~= Seq::<(i8, FigureType)>::empty());
                                lemma_seq_empty_right(vec@);
                            }
                        } else if o != FigureColor::NONE {
                            vec.push((dx * i + x + ((dy * i + y) * 8), FigureType::NONE));
                            done = true;
                            proof {
                                lemma_push_concat(
                                    prev,
                                    ((dx * i + x + ((dy * i + y) * 8)) as i8, FigureType::NONE),
                                );
                            }
                        } else {
                            vec.push((dx * i + x + ((dy * i + y) * 8), FigureType::NONE));
                            proof {
                                lemma_push_concat(
                                    prev,
                                    ((dx * i + x + ((dy * i + y) * 8)) as i8, FigureType::NONE),
                                );
                                lemma_concat_assoc(
                                    prev,
                                    seq![
                                        ((dx * i + x + ((dy * i + y) * 8)) as i8,
                                        FigureType::NONE),
                                    ],
                                    ray(b, xi, yi, c, dx as int, dy as int, i as int + 1),
                                );
                            }
                        }
                    }
                }
                i += 1;
            }
            proof {
                if !done {
                    assert(ray(b, xi, yi, c, dx as int, dy as int, 8)
                        =~= Seq::<(i8, FigureType)>::empty());
                    lemma_seq_empty_right(vec@);
                }
            }
        }
        k += 1;
    }
    proof {
        lemma_seq_empty_right(vec@);
    }
}

/// Every pseudo-legal move of the figure on `src_field`, as pairs of
/// destination square and promotion choice (`NONE` when the move is no
/// promotion); `(-1, NONE)` for an empty square. With `check` set, castling
/// transit squares are verified to be unattacked.
pub fn calc_reachable_fields(src_field: i8, board: &Board, check: bool) -> (r: Vec<
    (i8, FigureType),
>)
    requires
        gen_ok(board@),
        0 <= src_field < 64,
    ensures
        r@ == reachable_spec(board@, src_field as int, check),
    decreases (if check { 1int } else { 0int }), 2int,
{
    let mut vec: Vec<(i8, FigureType)> = Vec::new();
    let field = board.fields[src_field as usize];
    let x: i8 = src_field % 8;
    let y: i8 = src_field / 8;
    let c = field.figure_color;
    let ghost b = board@;
    let ghost srci = src_field as int;
    let ghost xi = x as int;
    let ghost yi = y as int;

    match field.figure_type {
        FigureType::KING => {
            let mut k: usize = 0;
            while k < 9
                invariant
                    k <= 9,
                    gen_ok(b),
                    b == board@,
                    xi == x as int,
                    yi == y as int,
                    0 <= xi < 8,
                    0 <= yi < 8,
                    c == b.fields[srci].figure_color,
                    srci == src_field as int,
                    0 <= srci < 64,
                    xi == srci % 8,
                    yi == srci / 8,
                    field == b.fields[srci],
                    field.figure_type == FigureType::KING,
                    king_adj(b, xi, yi, c, 0) == vec@ + king_adj(b, xi, yi, c, k as int),
                decreases 9 - k,
            {
                let dx: i8 = (k / 3) as i8 - 1;
                let dy: i8 = (k % 3) as i8 - 1;
                if !(dx == 0 && dy == 0) {
                    if dx + x >= 0 && dx + x < 8 && dy + y >= 0 && dy + y < 8 {
                        if is_occupied(dx + x, dy + y, board) != c {
                            let ghost prev = vec@;
                            vec.push((dx + x + ((dy + y) * 8), FigureType::NONE));
                            proof {
                                lemma_push_concat(
                                    prev,
                                    ((dx + x + ((dy + y) * 8)) as i8, FigureType::NONE),
                                );
                                lemma_concat_assoc(
                                    prev,
                                    seq![(((xi + dx) + (yi + dy) * 8) as i8, FigureType::NONE)],
                                    king_adj(b, xi, yi, c, k as int + 1),
                                );
                            }
                        }
                    }
                }
                k += 1;
            }
            proof {
                lemma_seq_empty_right(vec@);
                assert(vec@ == king_adj(b, xi, yi, c, 0));
            }

            let i_home: i8 = if c == FigureColor::BLACK {
                0
            } else {
                1
            };
            if src_field != 4 + i_home * 56 {
                proof {
                    lemma_seq_empty_right(vec@);
                    assert(vec@ == reachable_spec(b, srci, check));
                }
                return vec;
            }
            let ghost adj = vec@;
            try_castle(board, &mut vec, x, y, c, i_home * 56, check);
            try_castle(board, &mut vec, x, y, c, i_home * 56 + 7, check);
            proof {
                lemma_concat_assoc(
                    adj,
                    castle_emit(b, xi, yi, c, i_home as int * 56, check),
                    castle_emit(b, xi, yi, c, i_home as int * 56 + 7, check),
                );
                assert(vec@ == reachable_spec(b, srci, check));
            }
        },
        FigureType::PAWN => {
            proof {
                assert(pawn_ok(b.fields[srci], srci));
                assert(0 <= yi - pawn_dy(c) < 8);
            }
            let dy: i8 = if c == FigureColor::WHITE {
                1
            } else {
                -1
            };
            if is_occupied(x, y - dy, board) == FigureColor::NONE {
                if y - dy == 0 || y - dy == 7 {
                    vec.push((x + (y - dy) * 8, FigureType::QUEEN));
                    vec.push((x + (y - dy) * 8, FigureType::KNIGHT));
                    vec.push((x + (y - dy) * 8, FigureType::BISHOP));
                    vec.push((x + (y - dy) * 8, FigureType::ROOK));
                } else {
                    vec.push((x + (y - dy) * 8, FigureType::NONE));
                }
                if (y + dy == 0 || y + dy == 7) && is_occupied(x, y - dy * 2, board)
                    == FigureColor::NONE {
                    vec.push((x + (y - dy * 2) * 8, FigureType::NONE));
                }
            }
            proof {
                assert(vec@ =~= pawn_forward(b, xi, yi, c));
            }
            let ghost fwd = vec@;
            pawn_capture_into(board, &mut vec, x, y, c, -1);
            pawn_capture_into(board, &mut vec, x, y, c, 1);
            proof {
                lemma_concat_assoc(
                    fwd,
                    pawn_capture(b, xi, yi, c, b.en_passant, -1),
                    pawn_capture(b, xi, yi, c, b.en_passant, 1),
                );
                assert(vec@ == reachable_spec(b, srci, check));
            }
        },
        FigureType::KNIGHT => {
            let mut k: usize = 0;
            while k < 25
                invariant
                    k <= 25,
                    gen_ok(b),
                    b == board@,
                    xi == x as int,
                    yi == y as int,
                    0 <= xi < 8,
                    0 <= yi < 8,
                    knight_moves(b, xi, yi, c, 0) == vec@ + knight_moves(b, xi, yi, c, k as int),
                decreases 25 - k,
            {
                let dx: i8 = (k / 5) as i8 - 2;
                let dy: i8 = (k % 5) as i8 - 2;
                let adx: i8 = if dx < 0 {
                    -dx
                } else {
                    dx
                };
                let ady: i8 = if dy < 0 {
                    -dy
                } else {
                    dy
                };
                if adx + ady == 3 {
                    if dx + x >= 0 && dx + x < 8 && dy + y >= 0 && dy + y < 8 {
                        if is_occupied(dx + x, dy + y, board) != c {
                            let ghost prev = vec@;
                            vec.push((dx + x + ((dy + y) * 8), FigureType::NONE));
                            proof {
                                lemma_push_concat(
                                    prev,
                                    ((dx + x + ((dy + y) * 8)) as i8, FigureType::NONE),
                                );
                                lemma_concat_assoc(
                                    prev,
                                    seq![(((xi + dx) + (yi + dy) * 8) as i8, FigureType::NONE)],
                                    knight_moves(b, xi, yi, c, k as int + 1),
                                );
                            }
                        }
                    }
                }
                k += 1;
            }
            proof {
                lemma_seq_empty_right(vec@);
                assert(vec@ == reachable_spec(b, srci, check));
            }
        },
        FigureType::ROOK => {
            slide_into(board, &mut vec, x, y, c, FigureType::ROOK);
            proof {
                assert(vec@ == reachable_spec(b, srci, check));
            }
        },
        FigureType::BISHOP => {
            slide_into(board, &mut vec, x, y, c, FigureType::BISHOP);
            proof {
                assert(vec@ == reachable_spec(b, srci, check));
            }
        },
        FigureType::QUEEN => {
            slide_into(board, &mut vec, x, y, c, FigureType::QUEEN);
            proof {
                assert(vec@ == reachable_spec(b, srci, check));
            }
        },
        FigureType::NONE => {
            vec.push((-1, FigureType::NONE));
            proof {
                assert(vec@ =~= seq![(-1i8, FigureType::NONE)]);
                assert(vec@ == reachable_spec(b, srci, check));
            }
        },
    }
    vec
}

/// Applies a move: `target_move` is the destination square and, for a pawn
/// reaching the far rank, the kind it promotes to.
#[verifier::rlimit(60)]
pub fn play_move(source_field_index: i8, target_move: (i8, FigureType), board: &mut Board)
    requires
        play_pre(old(board)@, source_field_index as int, target_move.0 as int),
    ensures
        final(board)@ == play_spec(
            old(board)@,
            source_field_index as int,
            target_move.0 as int,
            target_move.1,
        ),
{
    let target_field_index = target_move.0;
    let source_field = board.fields[source_field_index as usize];
    let target_field = board.fields[target_field_index as usize];
    let empty = Field { figure_type: FigureType::NONE, figure_color: FigureColor::NONE };

    // en-passant bookkeeping
    if source_field.figure_type == FigureType::PAWN {
        let diff: i8 = if source_field_index >= target_field_index {
            source_field_index - target_field_index
        } else {
            target_field_index - source_field_index
        };
        if diff == 16 {
            board.en_passant = if target_field_index >= source_field_index {
                source_field_index + 8
            } else {
                source_field_index - 8
            };
        } else {
            board.en_passant = -1;
            if diff != 8 && target_field.figure_type == FigureType::NONE {
                if source_field.figure_color == FigureColor::WHITE {
                    board.fields.set((target_field_index + 8) as usize, empty);
                } else {
                    board.fields.set((target_field_index - 8) as usize, empty);
                }
            }
        }
    } else {
        board.en_passant = -1;
    }

    // a corner rook that moves forfeits its corner's flag
    if source_field.figure_type == FigureType::ROOK {
        if source_field_index == 0 {
            board.castle_rights.q = false;
        }
        if source_field_index == 7 {
            board.castle_rights.k = false;
        }
        if source_field_index == 56 {
            board.castle_rights.Q = false;
        }
        if source_field_index == 63 {
            board.castle_rights.K = false;
        }
    }

    let castle = source_field.figure_type == FigureType::KING && target_field.figure_type
        == FigureType::ROOK && source_field.figure_color == target_field.figure_color;

    if source_field.figure_type == FigureType::KING && !castle {
        // non-castle king move
        if source_field.figure_color == FigureColor::WHITE {
            board.castle_rights.Q = false;
            board.castle_rights.K = false;
        } else {
            board.castle_rights.q = false;
            board.castle_rights.k = false;
        }
        let mover = board.fields[source_field_index as usize];
        board.fields.set(target_field_index as usize, mover);
        board.fields.set(source_field_index as usize, empty);
    } else if castle {
        let side: i8 = if target_field_index % 8 != 0 {
            1
        } else {
            -1
        };
        board.fields.set(source_field_index as usize, empty);
        board.fields.set(target_field_index as usize, empty);
        board.fields.set(
            (source_field_index + side) as usize,
            Field { figure_type: FigureType::ROOK, figure_color: source_field.figure_color },
        );
        board.fields.set(
            (source_field_index + 2 * side) as usize,
            Field { figure_type: FigureType::KING, figure_color: source_field.figure_color },
        );
        if side == 1 {
            if source_field.figure_color == FigureColor::WHITE {
                board.castle_rights.K = false;
            } else {
                board.castle_rights.k = false;
            }
        } else {
            if source_field.figure_color == FigureColor::WHITE {
                board.castle_rights.Q = false;
            } else {
                board.castle_rights.q = false;
            }
        }
    } else if source_field.figure_type == FigureType::PAWN && (target_field_index < 8
        || target_field_index >= 56) {
        // promotion on the far rank
        board.fields.set(
            target_field_index as usize,
            Field { figure_type: target_move.1, figure_color: source_field.figure_color },
        );
        board.fields.set(source_field_index as usize, empty);
    } else {
        let mover = board.fields[source_field_index as usize];
        board.fields.set(target_field_index as usize, mover);
        board.fields.set(source_field_index as usize, empty);
    }

    // a corner square that is moved onto loses its flag: a captured rook
    // forfeits its corner's right even though it never moved
    if target_field_index == 0 {
        board.castle_rights.q = false;
    }
    if target_field_index == 7 {
        board.castle_rights.k = false;
    }
    if target_field_index == 56 {
        board.castle_rights.Q = false;
    }
    if target_field_index == 63 {
        board.castle_rights.K = false;
    }

    board.active = if board.active == FigureColor::WHITE {
        FigureColor::BLACK
    } else {
        FigureColor::WHITE
    };

    proof {
        assert(board@ =~= play_spec(
            old(board)@,
            source_field_index as int,
            target_move.0 as int,
            target_move.1,
        ));
    }
}

// ---------------------------------------------------------------------------
// Shape of generated moves, and what applying one preserves.
// ---------------------------------------------------------------------------

/// What every generated move of an occupied square satisfies: a destination on
/// the board, `play_pre`, and a promotion kind exactly when a pawn reaches the
/// far rank.
pub open spec fn move_shape_ok(b: BoardSpec, src: int, m: (i8, FigureType)) -> bool {
    &&& 0 <= m.0 < 64
    &&& play_pre(b, src, m.0 as int)
    &&& (b.fields[src].figure_type == FigureType::PAWN ==> (if m.0 < 8 || m.0 >= 56 {
        m.1 == FigureType::QUEEN || m.1 == FigureType::KNIGHT || m.1 == FigureType::BISHOP
            || m.1 == FigureType::ROOK
    } else {
        m.1 == FigureType::NONE
    }))
    &&& (b.fields[src].figure_type != FigureType::PAWN ==> m.1 == FigureType::NONE)
}

pub(crate) proof fn lemma_king_adj_elems(b: BoardSpec, x: int, y: int, c: FigureColor, k: int)
    requires
        b.fields.len() == 64,
        0 <= x < 8,
        0 <= y < 8,
    ensures
        forall|j: int|
            0 <= j < king_adj(b, x, y, c, k).len() ==> {
                let m = #[trigger] king_adj(b, x, y, c, k)[j];
                0 <= m.0 < 64 && m.1 == FigureType::NONE && b.fields[m.0 as int].figure_color != c
            },
    decreases 9 - k,
{
    if 0 <= k < 9 {
        lemma_king_adj_elems(b, x, y, c, k + 1);
    }
}

proof fn lemma_knight_elems(b: BoardSpec, x: int, y: int, c: FigureColor, k: int)
    requires
        b.fields.len() == 64,
        0 <= x < 8,
        0 <= y < 8,
    ensures
        forall|j: int|
            0 <= j < knight_moves(b, x, y, c, k).len() ==> {
                let m = #[trigger] knight_moves(b, x, y, c, k)[j];
                0 <= m.0 < 64 && m.1 == FigureType::NONE && b.fields[m.0 as int].figure_color != c
            },
    decreases 25 - k,
{
    if 0 <= k < 25 {
        lemma_knight_elems(b, x, y, c, k + 1);
    }
}

proof fn lemma_ray_elems(b: BoardSpec, x: int, y: int, c: FigureColor, dx: int, dy: int, i: int)
    requires
        b.fields.len() == 64,
    ensures
        forall|j: int|
            0 <= j < ray(b, x, y, c, dx, dy, i).len() ==> {
                let m = #[trigger] ray(b, x, y, c, dx, dy, i)[j];
                0 <= m.0 < 64 && m.1 == FigureType::NONE && b.fields[m.0 as int].figure_color != c
            },
    decreases 8 - i,
{
    if 1 <= i < 8 {
        lemma_ray_elems(b, x, y, c, dx, dy, i + 1);
    }
}

proof fn lemma_slide_elems(b: BoardSpec, x: int, y: int, c: FigureColor, kind: FigureType, k: int)
    requires
        b.fields.len() == 64,
    ensures
        forall|j: int|
            0 <= j < slide(b, x, y, c, kind, k).len() ==> {
                let m = #[trigger] slide(b, x, y, c, kind, k)[j];
                0 <= m.0 < 64 && m.1 == FigureType::NONE && b.fields[m.0 as int].figure_color != c
            },
    decreases 9 - k,
{
    if 0 <= k < 9 {
        lemma_slide_elems(b, x, y, c, kind, k + 1);
        lemma_ray_elems(b, x, y, c, k / 3 - 1, k % 3 - 1, 1);
    }
}

proof fn lemma_pawn_elems(b: BoardSpec, x: int, y: int, c: FigureColor, ep: int)
    requires
        b.fields.len() == 64,
        0 <= x < 8,
        0 <= y < 8,
        0 <= y - pawn_dy(c) < 8,
    ensures
        forall|j: int|
            0 <= j < pawn_moves(b, x, y, c, ep).len() ==> {
                let m = #[trigger] pawn_moves(b, x, y, c, ep)[j];
                &&& 0 <= m.0 < 64
                &&& (if m.0 < 8 || m.0 >= 56 {
                    m.1 == FigureType::QUEEN || m.1 == FigureType::KNIGHT || m.1
                        == FigureType::BISHOP || m.1 == FigureType::ROOK
                } else {
                    m.1 == FigureType::NONE
                })
                &&& (abs_i((x + y * 8) - m.0 as int) == 8 || abs_i((x + y * 8) - m.0 as int) == 16
                    || (if c == FigureColor::WHITE {
                    m.0 + 8 < 64
                } else {
                    m.0 - 8 >= 0
                }))
            },
{
    let fwd = pawn_forward(b, x, y, c);
    let c1 = pawn_capture(b, x, y, c, ep, -1);
    let c2 = pawn_capture(b, x, y, c, ep, 1);
    assert(pawn_moves(b, x, y, c, ep) == fwd + c1 + c2);
}

/// Every move the generator emits for an occupied square has a destination on
/// the board, satisfies `play_pre`, and carries a promotion kind exactly when
/// a pawn reaches the far rank.
pub proof fn lemma_reachable_ok(b: BoardSpec, src: int, chk: bool)
    requires
        gen_ok(b),
        0 <= src < 64,
        b.fields[src].figure_type != FigureType::NONE,
    ensures
        forall|j: int|
            0 <= j < reachable_spec(b, src, chk).len() ==> move_shape_ok(
                b,
                src,
                #[trigger] reachable_spec(b, src, chk)[j],
            ),
{
    let f = b.fields[src];
    let x = src % 8;
    let y = src / 8;
    let c = f.figure_color;
    assert(0 <= x < 8 && 0 <= y < 8 && src == x + y * 8);
    match f.figure_type {
        FigureType::KING => {
            lemma_king_adj_elems(b, x, y, c, 0);
            let adj = king_adj(b, x, y, c, 0);
            let cas = king_castles(b, src, x, y, c, chk);
            assert(reachable_spec(b, src, chk) == adj + cas);
            assert forall|j: int| 0 <= j < (adj + cas).len() implies move_shape_ok(
                b,
                src,
                #[trigger] (adj + cas)[j],
            ) by {
                if j < adj.len() {
                    assert((adj + cas)[j] == adj[j]);
                    assert(b.fields[adj[j].0 as int].figure_color != c);
                } else {
                    assert((adj + cas)[j] == cas[j - adj.len()]);
                }
            }
        },
        FigureType::PAWN => {
            assert(pawn_ok(b.fields[src], src));
            lemma_pawn_elems(b, x, y, c, b.en_passant);
        },
        FigureType::KNIGHT => {
            lemma_knight_elems(b, x, y, c, 0);
        },
        FigureType::ROOK => {
            lemma_slide_elems(b, x, y, c, FigureType::ROOK, 0);
        },
        FigureType::BISHOP => {
            lemma_slide_elems(b, x, y, c, FigureType::BISHOP, 0);
        },
        FigureType::QUEEN => {
            lemma_slide_elems(b, x, y, c, FigureType::QUEEN, 0);
        },
        FigureType::NONE => {
        },
    }
}

/// Applying a well-shaped move keeps every pawn off the rank it would have to
/// leave the board from.
pub proof fn lemma_play_keeps_gen_ok(b: BoardSpec, src: int, m: (i8, FigureType))
    requires
        gen_ok(b),
        0 <= src < 64,
        b.fields[src].figure_type != FigureType::NONE,
        move_shape_ok(b, src, m),
    ensures
        gen_ok(play_spec(b, src, m.0 as int, m.1)),
{
    let b2 = play_spec(b, src, m.0 as int, m.1);
    assert forall|i: int| 0 <= i < 64 implies pawn_ok(#[trigger] b2.fields[i], i) by {
        assert(pawn_ok(b.fields[i], i));
    }
}

/// Applying a well-shaped move of the side to move keeps the position well
/// formed: colors still mark occupancy, the side to move flips, and the new
/// en-passant target is on the board or -1.
pub proof fn lemma_play_keeps_board_ok(b: BoardSpec, src: int, m: (i8, FigureType))
    requires
        board_ok(b),
        0 <= src < 64,
        b.fields[src].figure_color == b.active,
        move_shape_ok(b, src, m),
    ensures
        board_ok(play_spec(b, src, m.0 as int, m.1)),
{
    assert(color_ok(b.fields[src]));
    lemma_play_keeps_gen_ok(b, src, m);
    let b2 = play_spec(b, src, m.0 as int, m.1);
    assert forall|i: int| 0 <= i < 64 implies pawn_ok(#[trigger] b2.fields[i], i) && color_ok(
        b2.fields[i],
    ) by {
        assert(pawn_ok(b.fields[i], i) && color_ok(b.fields[i]));
    }
}

// ---------------------------------------------------------------------------
// Legality: a pseudo-legal move is legal when applying it does not leave the
// mover's own king attacked.
// ---------------------------------------------------------------------------

pub open spec fn is_legal_spec(b: BoardSpec, src: int, m: (i8, FigureType)) -> bool {
    !king_checked_spec(play_spec(b, src, m.0 as int, m.1), b.fields[src].figure_color)
}

/// The legal subsequence of `s` from position `j` on, order kept.
pub open spec fn legal_filter(b: BoardSpec, src: int, s: Seq<(i8, FigureType)>, j: int) -> Seq<
    (i8, FigureType),
>
    decreases s.len() - j,
{
    if j < 0 || j >= s.len() {
        Seq::empty()
    } else {
        let rest = legal_filter(b, src, s, j + 1);
        if is_legal_spec(b, src, s[j]) {
            seq![s[j]] + rest
        } else {
            rest
        }
    }
}

/// The legal moves of the figure on `src`: the pseudo-legal moves, castling
/// transit verified, that do not expose the mover's own king.
pub open spec fn legal_moves_spec(b: BoardSpec, src: int) -> Seq<(i8, FigureType)> {
    legal_filter(b, src, reachable_spec(b, src, true), 0)
}

fn is_legal(src_field_id: i8, target_move: (i8, FigureType), board: Board) -> (r: bool)
    requires
        gen_ok(board@),
        0 <= src_field_id < 64,
        board@.fields[src_field_id as int].figure_type != FigureType::NONE,
        move_shape_ok(board@, src_field_id as int, target_move),
    ensures
        r == is_legal_spec(board@, src_field_id as int, target_move),
{
    let src_field = board.fields[src_field_id as usize];
    let mut new_board = board;
    play_move(src_field_id, target_move, &mut new_board);
    proof {
        lemma_play_keeps_gen_ok(board@, src_field_id as int, target_move);
    }
    !is_king_checked(src_field.figure_color, new_board)
}

/// The legal moves of the figure on `src_field`: pseudo-legal reachability
/// with castling-transit validation, filtered by applying each move to a
/// private copy and rejecting those that leave the mover's own king in check.
pub fn calc_legal_moves(src_field: i8, board: &Board) -> (r: Vec<(i8, FigureType)>)
    requires
        gen_ok(board@),
        0 <= src_field < 64,
        board@.fields[src_field as int].figure_type != FigureType::NONE,
    ensures
        r@ == legal_moves_spec(board@, src_field as int),
{
    let reachable_fields = calc_reachable_fields(src_field, board, true);
    proof {
        lemma_reachable_ok(board@, src_field as int, true);
    }
    let ghost b = board@;
    let ghost srci = src_field as int;
    let ghost all = reachable_fields@;
    let mut out: Vec<(i8, FigureType)> = Vec::new();
    let mut j: usize = 0;
    proof {
        lemma_seq_empty_left(legal_filter(b, srci, all, 0));
    }
    while j < reachable_fields.len()
        invariant
            j <= all.len(),
            reachable_fields@ == all,
            all == reachable_spec(b, srci, true),
            b == board@,
            srci == src_field as int,
            0 <= src_field < 64,
            gen_ok(b),
            b.fields[srci].figure_type != FigureType::NONE,
            forall|t: int| 0 <= t < all.len() ==> move_shape_ok(b, srci, #[trigger] all[t]),
            legal_moves_spec(b, srci) == out@ + legal_filter(b, srci, all, j as int),
        decreases all.len() - j,
    {
        let m = reachable_fields[j];
        let ghost prev = out@;
        if is_legal(src_field, m, board.duplicate()) {
            out.push(m);
            proof {
                lemma_push_concat(prev, m);
                lemma_concat_assoc(prev, seq![m], legal_filter(b, srci, all, j as int + 1));
            }
        }
        j += 1;
    }
    proof {
        lemma_seq_empty_right(out@);
    }
    out
}

} // verus!
