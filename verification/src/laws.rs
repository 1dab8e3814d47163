use vstd::prelude::*;

use crate::engine::{
    abs_i, castle_emit, checked_spec, dir_ok, in_board, is_legal_spec, king_adj, king_castles,
    king_checked_spec, knight_moves, legal_filter, legal_moves_spec, lemma_king_adj_elems, occ,
    play_spec, ray, reachable_spec, seq_has_dest, slide,
};
use crate::models::{BoardSpec, FigureColor, FigureType, PositionDescription, gen_ok, pawn_ok};
use crate::search::{all_moves_spec, search_rec};
use crate::utils::{index_to_pos_spec, pos_to_index_spec};

verus! {

/// Square and algebraic notation round-trip: translating any of the 64 square
/// indices to its two-character name and back yields the index again.
pub proof fn lemma_square_notation_round_trip(i: int)
    requires
        0 <= i < 64,
    ensures
        pos_to_index_spec(index_to_pos_spec(i)) == i,
{
    let f = i % 8;
    let r = i / 8;
    assert(0 <= f < 8 && 0 <= r < 8 && i == f + r * 8);
    assert((((97 + f) as u8) as char) as u32 == 97 + f);
    assert((((56 - r) as u8) as char) as u32 == 56 - r);
}

/// A king cannot castle out of, through, or into check: whenever the
/// transit-validated generator emits the castling move (the king onto its own
/// rook's square `corner`), none of the squares the king occupies along the
/// way - its origin, the intermediate square, and the destination two files
/// toward the rook - is attacked.
pub proof fn lemma_castle_not_through_check(b: BoardSpec, src: int, corner: int)
    requires
        gen_ok(b),
        0 <= src < 64,
        0 <= corner < 64,
        b.fields[src].figure_type == FigureType::KING,
        b.fields[corner].figure_type == FigureType::ROOK,
        b.fields[corner].figure_color == b.fields[src].figure_color,
        seq_has_dest(reachable_spec(b, src, true), corner),
    ensures
        !checked_spec(b, src, b.fields[src].figure_color),
        corner % 8 == 0 ==> !checked_spec(b, src - 1, b.fields[src].figure_color) && !checked_spec(
            b,
            src - 2,
            b.fields[src].figure_color,
        ),
        corner % 8 != 0 ==> !checked_spec(b, src + 1, b.fields[src].figure_color) && !checked_spec(
            b,
            src + 2,
            b.fields[src].figure_color,
        ),
{
    let c = b.fields[src].figure_color;
    let x = src % 8;
    let y = src / 8;
    assert(0 <= x < 8 && 0 <= y < 8 && src == x + y * 8);
    lemma_king_adj_elems(b, x, y, c, 0);
    let adj = king_adj(b, x, y, c, 0);
    let cas = king_castles(b, src, x, y, c, true);
    assert(reachable_spec(b, src, true) == adj + cas);
    let j = choose|j: int|
        0 <= j < (adj + cas).len() && (#[trigger] (adj + cas)[j]).0 as int == corner;
    if j < adj.len() {
        assert((adj + cas)[j] == adj[j]);
        assert(b.fields[corner].figure_color != c);
        assert(false);
    } else {
        assert((adj + cas)[j] == cas[j - adj.len()]);
        let i: int = if c == FigureColor::BLACK {
            0
        } else {
            1
        };
        assert(src == 4 + i * 56);
        let e1 = castle_emit(b, x, y, c, i * 56, true);
        let e2 = castle_emit(b, x, y, c, i * 56 + 7, true);
        assert(cas == e1 + e2);
        let jj = j - adj.len();
        if jj < e1.len() {
            assert(cas[jj] == e1[jj]);
            assert(corner == i * 56);
        } else {
            assert(cas[jj] == e2[jj - e1.len()]);
            assert(corner == i * 56 + 7);
        }
    }
}

proof fn lemma_has_dest_concat_left(s1: Seq<(i8, FigureType)>, s2: Seq<(i8, FigureType)>, d: int)
    requires
        seq_has_dest(s1, d),
    ensures
        seq_has_dest(s1 + s2, d),
{
    let j = choose|j: int| 0 <= j < s1.len() && (#[trigger] s1[j]).0 as int == d;
    assert((s1 + s2)[j].0 as int == d);
}

proof fn lemma_has_dest_concat_right(s1: Seq<(i8, FigureType)>, s2: Seq<(i8, FigureType)>, d: int)
    requires
        seq_has_dest(s2, d),
    ensures
        seq_has_dest(s1 + s2, d),
{
    let j = choose|j: int| 0 <= j < s2.len() && (#[trigger] s2[j]).0 as int == d;
    assert((s1 + s2)[s1.len() + j].0 as int == d);
}

proof fn lemma_has_dest_split(s1: Seq<(i8, FigureType)>, s2: Seq<(i8, FigureType)>, d: int)
    ensures
        seq_has_dest(s1 + s2, d) <==> seq_has_dest(s1, d) || seq_has_dest(s2, d),
{
    if seq_has_dest(s1 + s2, d) {
        let j = choose|j: int| 0 <= j < (s1 + s2).len() && (#[trigger] (s1 + s2)[j]).0 as int == d;
        if j < s1.len() {
            assert(s1[j].0 as int == d);
        } else {
            assert(s2[j - s1.len()].0 as int == d);
        }
    }
    if seq_has_dest(s1, d) {
        lemma_has_dest_concat_left(s1, s2, d);
    }
    if seq_has_dest(s2, d) {
        lemma_has_dest_concat_right(s1, s2, d);
    }
}

/// The pawn's reachable set, stated directly: one step forward onto an empty
/// square (the promotion choices share that destination), the double step from
/// the home rank over two empty squares, and the diagonal captures onto
/// another side's figure or the en-passant target.
pub proof fn lemma_pawn_reachable(b: BoardSpec, src: int, chk: bool, d: int)
    requires
        b.fields.len() == 64,
        0 <= src < 64,
        b.fields[src].figure_type == FigureType::PAWN,
        pawn_ok(b.fields[src], src),
    ensures
        seq_has_dest(reachable_spec(b, src, chk), d) <==> ({
            let c = b.fields[src].figure_color;
            let dy = crate::engine::pawn_dy(c);
            let x = src % 8;
            let y = src / 8;
            ||| (d == x + (y - dy) * 8 && occ(b, x, y - dy) == FigureColor::NONE)
            ||| (d == x + (y - 2 * dy) * 8 && (y + dy == 0 || y + dy == 7) && occ(b, x, y - dy)
                == FigureColor::NONE && occ(b, x, y - 2 * dy) == FigureColor::NONE)
            ||| (x - 1 >= 0 && d == (x - 1) + (y - dy) * 8 && (occ(b, x - 1, y - dy)
                != FigureColor::NONE || d == b.en_passant) && occ(b, x - 1, y - dy) != c)
            ||| (x + 1 < 8 && d == (x + 1) + (y - dy) * 8 && (occ(b, x + 1, y - dy)
                != FigureColor::NONE || d == b.en_passant) && occ(b, x + 1, y - dy) != c)
        }),
{
    let c = b.fields[src].figure_color;
    let dy = crate::engine::pawn_dy(c);
    let x = src % 8;
    let y = src / 8;
    let ep = b.en_passant;
    assert(0 <= x < 8 && 0 <= y < 8 && src == x + y * 8);
    let fwd = crate::engine::pawn_forward(b, x, y, c);
    let c1 = crate::engine::pawn_capture(b, x, y, c, ep, -1);
    let c2 = crate::engine::pawn_capture(b, x, y, c, ep, 1);
    assert(reachable_spec(b, src, chk) == (fwd + c1) + c2);
    lemma_has_dest_split(fwd + c1, c2, d);
    lemma_has_dest_split(fwd, c1, d);

    // the forward block: single step (possibly as the four promotion choices),
    // then the double step
    if occ(b, x, y - dy) == FigureColor::NONE {
        let one: Seq<(i8, FigureType)> = if y - dy == 0 || y - dy == 7 {
            crate::engine::promo_seq(x + (y - dy) * 8)
        } else {
            seq![((x + (y - dy) * 8) as i8, FigureType::NONE)]
        };
        let two: Seq<(i8, FigureType)> = if (y + dy == 0 || y + dy == 7) && occ(b, x, y - 2 * dy)
            == FigureColor::NONE {
            seq![((x + (y - 2 * dy) * 8) as i8, FigureType::NONE)]
        } else {
            Seq::empty()
        };
        assert(fwd == one + two);
        lemma_has_dest_split(one, two, d);
        assert(seq_has_dest(one, d) <==> d == x + (y - dy) * 8) by {
            if d == x + (y - dy) * 8 {
                assert(one[0].0 as int == d);
            }
            if seq_has_dest(one, d) {
                let j = choose|j: int| 0 <= j < one.len() && (#[trigger] one[j]).0 as int == d;
            }
        }
        if (y + dy == 0 || y + dy == 7) && occ(b, x, y - 2 * dy) == FigureColor::NONE {
            assert(seq_has_dest(two, d) <==> d == x + (y - 2 * dy) * 8) by {
                if d == x + (y - 2 * dy) * 8 {
                    assert(two[0].0 as int == d);
                }
                if seq_has_dest(two, d) {
                    let j = choose|j: int| 0 <= j < two.len() && (#[trigger] two[j]).0 as int == d;
                }
            }
        }
    }

    // the two capture blocks
    if x - 1 >= 0 && (occ(b, x - 1, y - dy) != FigureColor::NONE || (x - 1) + (y - dy) * 8 == ep)
        && occ(b, x - 1, y - dy) != c {
        assert(seq_has_dest(c1, d) <==> d == (x - 1) + (y - dy) * 8) by {
            if d == (x - 1) + (y - dy) * 8 {
                assert(c1[0].0 as int == d);
            }
            if seq_has_dest(c1, d) {
                let j = choose|j: int| 0 <= j < c1.len() && (#[trigger] c1[j]).0 as int == d;
            }
        }
    } else {
        assert(!seq_has_dest(c1, d)) by {
            if seq_has_dest(c1, d) {
                let j = choose|j: int| 0 <= j < c1.len() && (#[trigger] c1[j]).0 as int == d;
            }
        }
    }
    if x + 1 < 8 && (occ(b, x + 1, y - dy) != FigureColor::NONE || (x + 1) + (y - dy) * 8 == ep)
        && occ(b, x + 1, y - dy) != c {
        assert(seq_has_dest(c2, d) <==> d == (x + 1) + (y - dy) * 8) by {
            if d == (x + 1) + (y - dy) * 8 {
                assert(c2[0].0 as int == d);
            }
            if seq_has_dest(c2, d) {
                let j = choose|j: int| 0 <= j < c2.len() && (#[trigger] c2[j]).0 as int == d;
            }
        }
    } else {
        assert(!seq_has_dest(c2, d)) by {
            if seq_has_dest(c2, d) {
                let j = choose|j: int| 0 <= j < c2.len() && (#[trigger] c2[j]).0 as int == d;
            }
        }
    }
}

/// Every square a knight scan from step `k` on reaches lies a (1,2) or (2,1)
/// jump away and is not friendly-held.
proof fn lemma_knight_elems_geometry(b: BoardSpec, x: int, y: int, c: FigureColor, k: int)
    requires
        b.fields.len() == 64,
        0 <= x < 8,
        0 <= y < 8,
    ensures
        forall|j: int|
            0 <= j < knight_moves(b, x, y, c, k).len() ==> {
                let dd = (#[trigger] knight_moves(b, x, y, c, k)[j]).0 as int;
                &&& 0 <= dd < 64
                &&& b.fields[dd].figure_color != c
                &&& ((abs_i(dd % 8 - x) == 1 && abs_i(dd / 8 - y) == 2) || (abs_i(dd % 8 - x) == 2
                    && abs_i(dd / 8 - y) == 1))
            },
    decreases 25 - k,
{
    if 0 <= k < 25 {
        lemma_knight_elems_geometry(b, x, y, c, k + 1);
    }
}

/// A knight jump with the right geometry onto a non-friendly square is
/// emitted by every scan that has not passed its offset yet.
proof fn lemma_knight_emits(b: BoardSpec, x: int, y: int, c: FigureColor, k: int, k0: int)
    requires
        b.fields.len() == 64,
        0 <= k0 <= k < 25,
        abs_i(k / 5 - 2) + abs_i(k % 5 - 2) == 3,
        crate::engine::in_board(x + (k / 5 - 2), y + (k % 5 - 2)),
        crate::engine::occ(b, x + (k / 5 - 2), y + (k % 5 - 2)) != c,
    ensures
        seq_has_dest(knight_moves(b, x, y, c, k0), (x + (k / 5 - 2)) + (y + (k % 5 - 2)) * 8),
    decreases k - k0,
{
    let dx = k / 5 - 2;
    let dy = k % 5 - 2;
    let d = (x + dx) + (y + dy) * 8;
    if k0 == k {
        assert(knight_moves(b, x, y, c, k0)[0].0 as int == d);
    } else {
        lemma_knight_emits(b, x, y, c, k, k0 + 1);
        let dx0 = k0 / 5 - 2;
        let dy0 = k0 % 5 - 2;
        let rest = knight_moves(b, x, y, c, k0 + 1);
        if abs_i(dx0) + abs_i(dy0) == 3 && crate::engine::in_board(x + dx0, y + dy0)
            && crate::engine::occ(b, x + dx0, y + dy0) != c {
            lemma_has_dest_concat_right(
                seq![(((x + dx0) + (y + dy0) * 8) as i8, FigureType::NONE)],
                rest,
                d,
            );
        }
    }
}

/// The knight's reachable set, stated geometrically: a square is reachable
/// exactly when it lies a (1,2) or (2,1) jump away and no figure of the
/// knight's own color stands on it.
pub proof fn lemma_knight_reachable(b: BoardSpec, src: int, chk: bool, d: int)
    requires
        b.fields.len() == 64,
        0 <= src < 64,
        0 <= d < 64,
        b.fields[src].figure_type == FigureType::KNIGHT,
    ensures
        seq_has_dest(reachable_spec(b, src, chk), d) <==> ({
            let fx = src % 8;
            let fy = src / 8;
            let tx = d % 8;
            let ty = d / 8;
            &&& ((abs_i(tx - fx) == 1 && abs_i(ty - fy) == 2) || (abs_i(tx - fx) == 2 && abs_i(
                ty - fy,
            ) == 1))
            &&& b.fields[d].figure_color != b.fields[src].figure_color
        }),
{
    let c = b.fields[src].figure_color;
    let fx = src % 8;
    let fy = src / 8;
    let tx = d % 8;
    let ty = d / 8;
    assert(0 <= fx < 8 && 0 <= fy < 8 && src == fx + fy * 8);
    assert(0 <= tx < 8 && 0 <= ty < 8 && d == tx + ty * 8);
    lemma_knight_elems_geometry(b, fx, fy, c, 0);
    if ((abs_i(tx - fx) == 1 && abs_i(ty - fy) == 2) || (abs_i(tx - fx) == 2 && abs_i(ty - fy)
        == 1)) && b.fields[d].figure_color != c {
        let dx = tx - fx;
        let dy = ty - fy;
        let k = (dx + 2) * 5 + (dy + 2);
        assert(k / 5 - 2 == dx && k % 5 - 2 == dy);
        assert(crate::engine::occ(b, fx + dx, fy + dy) != c);
        lemma_knight_emits(b, fx, fy, c, k, 0);
    }
}

/// Every square the adjacency scan from step `k` on reaches lies at most one
/// file and one rank away, differs from the origin, and is not friendly-held.
proof fn lemma_king_adj_geometry(b: BoardSpec, x: int, y: int, c: FigureColor, k: int)
    requires
        b.fields.len() == 64,
        0 <= x < 8,
        0 <= y < 8,
    ensures
        forall|j: int|
            0 <= j < king_adj(b, x, y, c, k).len() ==> {
                let dd = (#[trigger] king_adj(b, x, y, c, k)[j]).0 as int;
                &&& 0 <= dd < 64
                &&& b.fields[dd].figure_color != c
                &&& abs_i(dd % 8 - x) <= 1
                &&& abs_i(dd / 8 - y) <= 1
                &&& dd != x + y * 8
            },
    decreases 9 - k,
{
    if 0 <= k < 9 {
        lemma_king_adj_geometry(b, x, y, c, k + 1);
    }
}

/// A one-square king step with the right geometry onto a non-friendly square
/// is emitted by every adjacency scan that has not passed its offset yet.
proof fn lemma_king_adj_emits(b: BoardSpec, x: int, y: int, c: FigureColor, k: int, k0: int)
    requires
        b.fields.len() == 64,
        0 <= k0 <= k < 9,
        !(k / 3 - 1 == 0 && k % 3 - 1 == 0),
        in_board(x + (k / 3 - 1), y + (k % 3 - 1)),
        occ(b, x + (k / 3 - 1), y + (k % 3 - 1)) != c,
    ensures
        seq_has_dest(king_adj(b, x, y, c, k0), (x + (k / 3 - 1)) + (y + (k % 3 - 1)) * 8),
    decreases k - k0,
{
    let dx = k / 3 - 1;
    let dy = k % 3 - 1;
    let d = (x + dx) + (y + dy) * 8;
    if k0 == k {
        assert(king_adj(b, x, y, c, k0)[0].0 as int == d);
    } else {
        lemma_king_adj_emits(b, x, y, c, k, k0 + 1);
        let dx0 = k0 / 3 - 1;
        let dy0 = k0 % 3 - 1;
        let rest = king_adj(b, x, y, c, k0 + 1);
        if !(dx0 == 0 && dy0 == 0) && in_board(x + dx0, y + dy0) && occ(b, x + dx0, y + dy0)
            != c {
            lemma_has_dest_concat_right(
                seq![(((x + dx0) + (y + dy0) * 8) as i8, FigureType::NONE)],
                rest,
                d,
            );
        }
    }
}

/// The king's reachable set, stated directly: a square is reachable exactly
/// when it is a non-friendly square at most one step away, or the king stands
/// on its home square and the square holds its own rook with the corner's
/// flag set, a clear path, and (when transit is validated) an unattacked
/// transit - the castling encoding.
pub proof fn lemma_king_reachable(b: BoardSpec, src: int, chk: bool, d: int)
    requires
        b.fields.len() == 64,
        0 <= src < 64,
        0 <= d < 64,
        b.fields[src].figure_type == FigureType::KING,
    ensures
        seq_has_dest(reachable_spec(b, src, chk), d) <==> ({
            let c = b.fields[src].figure_color;
            let x = src % 8;
            let y = src / 8;
            ||| (abs_i(d % 8 - x) <= 1 && abs_i(d / 8 - y) <= 1 && d != src
                && b.fields[d].figure_color != c)
            ||| (src == 4 + (if c == FigureColor::BLACK {
                0int
            } else {
                1int
            }) * 56 && (d == y * 8 || d == y * 8 + 7) && b.fields[d].figure_type
                == FigureType::ROOK && b.fields[d].figure_color == c && crate::engine::castle_right_ok(
                b,
                c,
                d,
            ) && crate::engine::castle_path_clear(b, x, y, d)
                && crate::engine::castle_transit_safe(b, x, y, c, d, chk))
        }),
{
    let c = b.fields[src].figure_color;
    let x = src % 8;
    let y = src / 8;
    assert(0 <= x < 8 && 0 <= y < 8 && src == x + y * 8);
    assert(0 <= d % 8 < 8 && 0 <= d / 8 < 8 && d == d % 8 + (d / 8) * 8);
    lemma_king_adj_geometry(b, x, y, c, 0);
    let adj = king_adj(b, x, y, c, 0);
    let cas = king_castles(b, src, x, y, c, chk);
    let i: int = if c == FigureColor::BLACK {
        0
    } else {
        1
    };
    let e1 = castle_emit(b, x, y, c, i * 56, chk);
    let e2 = castle_emit(b, x, y, c, i * 56 + 7, chk);
    assert(reachable_spec(b, src, chk) == adj + cas);

    if seq_has_dest(reachable_spec(b, src, chk), d) {
        let j = choose|j: int|
            0 <= j < (adj + cas).len() && (#[trigger] (adj + cas)[j]).0 as int == d;
        if j < adj.len() {
            assert((adj + cas)[j] == adj[j]);
        } else {
            assert((adj + cas)[j] == cas[j - adj.len()]);
            assert(src == 4 + i * 56);
            assert(cas == e1 + e2);
            let jj = j - adj.len();
            if jj < e1.len() {
                assert(cas[jj] == e1[jj]);
                assert(d == i * 56);
                assert(y == i * 7);
            } else {
                assert(cas[jj] == e2[jj - e1.len()]);
                assert(d == i * 56 + 7);
                assert(y == i * 7);
            }
        }
    }

    if abs_i(d % 8 - x) <= 1 && abs_i(d / 8 - y) <= 1 && d != src && b.fields[d].figure_color
        != c {
        let dx = d % 8 - x;
        let dy = d / 8 - y;
        let k = (dx + 1) * 3 + (dy + 1);
        assert(k / 3 - 1 == dx && k % 3 - 1 == dy);
        assert(occ(b, x + dx, y + dy) != c);
        lemma_king_adj_emits(b, x, y, c, k, 0);
        lemma_has_dest_concat_left(adj, cas, d);
    }
    if src == 4 + i * 56 && (d == y * 8 || d == y * 8 + 7) && b.fields[d].figure_type
        == FigureType::ROOK && b.fields[d].figure_color == c && crate::engine::castle_right_ok(
        b,
        c,
        d,
    ) && crate::engine::castle_path_clear(b, x, y, d) && crate::engine::castle_transit_safe(
        b,
        x,
        y,
        c,
        d,
        chk,
    ) {
        assert(y == i * 7);
        assert(cas == e1 + e2);
        if d == y * 8 {
            assert(e1[0].0 as int == d);
            lemma_has_dest_concat_left(e1, e2, d);
        } else {
            assert(e2[0].0 as int == d);
            lemma_has_dest_concat_right(e1, e2, d);
        }
        lemma_has_dest_concat_right(adj, cas, d);
    }
}

/// Step `t` of the ray from (x, y) along (dx, dy) lands on square `d`: the
/// step stays on the board, every earlier step from `i` on is empty, and no
/// figure of the caster's own color stands on `d`.
pub open spec fn ray_hit_at(
    b: BoardSpec,
    x: int,
    y: int,
    c: FigureColor,
    dx: int,
    dy: int,
    i: int,
    d: int,
    t: int,
) -> bool {
    &&& i <= t < 8
    &&& in_board(x + dx * t, y + dy * t)
    &&& d == (x + dx * t) + (y + dy * t) * 8
    &&& b.fields[d].figure_color != c
    &&& (forall|u: int|
        i <= u < t ==> #[trigger] occ(b, x + dx * u, y + dy * u) == FigureColor::NONE)
}

/// Some step of the ray from (x, y) along (dx, dy), taken from step `i` on,
/// lands on square `d`.
pub open spec fn ray_hits(
    b: BoardSpec,
    x: int,
    y: int,
    c: FigureColor,
    dx: int,
    dy: int,
    i: int,
    d: int,
) -> bool {
    exists|t: int| #[trigger] ray_hit_at(b, x, y, c, dx, dy, i, d, t)
}

/// Square `d` lies along one of the piece kind's movement directions, with
/// every square strictly between empty and no friendly figure on `d` itself.
pub open spec fn slide_dir_hits(
    b: BoardSpec,
    x: int,
    y: int,
    c: FigureColor,
    kind: FigureType,
    d: int,
) -> bool {
    exists|dxy: (int, int)|
        #![trigger ray_hits(b, x, y, c, dxy.0, dxy.1, 1, d)]
        -1 <= dxy.0 <= 1 && -1 <= dxy.1 <= 1 && dir_ok(kind, dxy.0, dxy.1) && ray_hits(
            b,
            x,
            y,
            c,
            dxy.0,
            dxy.1,
            1,
            d,
        )
}

proof fn lemma_ray_oob(b: BoardSpec, x: int, y: int, c: FigureColor, dx: int, dy: int, i: int)
    requires
        -1 <= dx <= 1,
        -1 <= dy <= 1,
        0 <= x < 8,
        0 <= y < 8,
        1 <= i <= 8,
        !in_board(x + dx * i, y + dy * i),
    ensures
        ray(b, x, y, c, dx, dy, i) == Seq::<(i8, FigureType)>::empty(),
        forall|t: int| i <= t < 8 ==> !(#[trigger] in_board(x + dx * t, y + dy * t)),
    decreases 8 - i,
{
    assert forall|t: int| i <= t < 8 implies !(#[trigger] in_board(x + dx * t, y + dy * t)) by {
        assert(dx * i == (if dx == -1 { -i } else if dx == 0 { 0int } else { i })
            && dx * t == (if dx == -1 { -t } else if dx == 0 { 0int } else { t })
            && dy * i == (if dy == -1 { -i } else if dy == 0 { 0int } else { i })
            && dy * t == (if dy == -1 { -t } else if dy == 0 { 0int } else { t }))
            by (nonlinear_arith)
            requires
                -1 <= dx <= 1,
                -1 <= dy <= 1,
        ;
    }
    if i < 8 {
        lemma_ray_oob(b, x, y, c, dx, dy, i + 1);
    }
}

/// One ray emits exactly the squares `ray_hits` describes.
proof fn lemma_ray_characterization(
    b: BoardSpec,
    x: int,
    y: int,
    c: FigureColor,
    dx: int,
    dy: int,
    i: int,
    d: int,
)
    requires
        b.fields.len() == 64,
        c != FigureColor::NONE,
        -1 <= dx <= 1,
        -1 <= dy <= 1,
        0 <= x < 8,
        0 <= y < 8,
        1 <= i <= 8,
    ensures
        seq_has_dest(ray(b, x, y, c, dx, dy, i), d) <==> ray_hits(b, x, y, c, dx, dy, i, d),
    decreases 8 - i,
{
    let r = ray(b, x, y, c, dx, dy, i);
    if i >= 8 {
        assert(!ray_hits(b, x, y, c, dx, dy, i, d));
    } else {
        let px = x + dx * i;
        let py = y + dy * i;
        let pd = px + py * 8;
        if !in_board(px, py) {
            lemma_ray_oob(b, x, y, c, dx, dy, i);
            if ray_hits(b, x, y, c, dx, dy, i, d) {
                let t = choose|t: int| #[trigger] ray_hit_at(b, x, y, c, dx, dy, i, d, t);
                assert(false);
            }
        } else if occ(b, px, py) == c {
            assert(r == Seq::<(i8, FigureType)>::empty());
            if ray_hits(b, x, y, c, dx, dy, i, d) {
                let t = choose|t: int| #[trigger] ray_hit_at(b, x, y, c, dx, dy, i, d, t);
                if t == i {
                    assert(b.fields[pd].figure_color == c);
                } else {
                    assert(occ(b, x + dx * i, y + dy * i) == FigureColor::NONE);
                }
                assert(false);
            }
        } else if occ(b, px, py) != FigureColor::NONE {
            assert(r == seq![(pd as i8, FigureType::NONE)]);
            if seq_has_dest(r, d) {
                assert(r[0].0 as int == d);
                assert(ray_hit_at(b, x, y, c, dx, dy, i, d, i));
            }
            if ray_hits(b, x, y, c, dx, dy, i, d) {
                let t = choose|t: int| #[trigger] ray_hit_at(b, x, y, c, dx, dy, i, d, t);
                if t != i {
                    assert(occ(b, x + dx * i, y + dy * i) == FigureColor::NONE);
                    assert(false);
                }
                assert(d == pd);
                assert(r[0].0 as int == d);
            }
        } else {
            lemma_ray_characterization(b, x, y, c, dx, dy, i + 1, d);
            let head = seq![(pd as i8, FigureType::NONE)];
            let rest = ray(b, x, y, c, dx, dy, i + 1);
            assert(r == head + rest);
            if seq_has_dest(r, d) {
                let j = choose|j: int| 0 <= j < r.len() && (#[trigger] r[j]).0 as int == d;
                if j == 0 {
                    assert(d == pd);
                    assert(ray_hit_at(b, x, y, c, dx, dy, i, d, i));
                } else {
                    assert(rest[j - 1].0 as int == d);
                    assert(ray_hits(b, x, y, c, dx, dy, i + 1, d));
                    let t = choose|t: int| #[trigger] ray_hit_at(b, x, y, c, dx, dy, i + 1, d, t);
                    assert forall|u: int| i <= u < t implies #[trigger] occ(
                        b,
                        x + dx * u,
                        y + dy * u,
                    ) == FigureColor::NONE by {
                        if u > i {
                            assert(occ(b, x + dx * u, y + dy * u) == FigureColor::NONE);
                        }
                    }
                    assert(ray_hit_at(b, x, y, c, dx, dy, i, d, t));
                }
            }
            if ray_hits(b, x, y, c, dx, dy, i, d) {
                let t = choose|t: int| #[trigger] ray_hit_at(b, x, y, c, dx, dy, i, d, t);
                if t == i {
                    assert(r[0].0 as int == d);
                } else {
                    assert(ray_hit_at(b, x, y, c, dx, dy, i + 1, d, t));
                    assert(seq_has_dest(rest, d));
                    let j = choose|j: int|
                        0 <= j < rest.len() && (#[trigger] rest[j]).0 as int == d;
                    assert(r[j + 1].0 as int == d);
                }
            }
        }
    }
}

/// Scanning directions from `k` on, the sliding generator reaches `d` exactly
/// when the ray of some not-yet-scanned direction of the kind hits it.
proof fn lemma_slide_characterization(
    b: BoardSpec,
    x: int,
    y: int,
    c: FigureColor,
    kind: FigureType,
    k: int,
    d: int,
)
    requires
        b.fields.len() == 64,
        c != FigureColor::NONE,
        0 <= x < 8,
        0 <= y < 8,
        0 <= k <= 9,
    ensures
        seq_has_dest(slide(b, x, y, c, kind, k), d) <==> exists|dxy: (int, int)|
            #![trigger ray_hits(b, x, y, c, dxy.0, dxy.1, 1, d)]
            -1 <= dxy.0 <= 1 && -1 <= dxy.1 <= 1 && (dxy.0 + 1) * 3 + (dxy.1 + 1) >= k && dir_ok(
                kind,
                dxy.0,
                dxy.1,
            ) && ray_hits(b, x, y, c, dxy.0, dxy.1, 1, d),
    decreases 9 - k,
{
    if k >= 9 {
        if exists|dxy: (int, int)|
            #![trigger ray_hits(b, x, y, c, dxy.0, dxy.1, 1, d)]
            -1 <= dxy.0 <= 1 && -1 <= dxy.1 <= 1 && (dxy.0 + 1) * 3 + (dxy.1 + 1) >= k && dir_ok(
                kind,
                dxy.0,
                dxy.1,
            ) && ray_hits(b, x, y, c, dxy.0, dxy.1, 1, d) {
            let dxy = choose|dxy: (int, int)|
                #![trigger ray_hits(b, x, y, c, dxy.0, dxy.1, 1, d)]
                -1 <= dxy.0 <= 1 && -1 <= dxy.1 <= 1 && (dxy.0 + 1) * 3 + (dxy.1 + 1) >= k
                    && dir_ok(kind, dxy.0, dxy.1) && ray_hits(b, x, y, c, dxy.0, dxy.1, 1, d);
            assert((dxy.0 + 1) * 3 + (dxy.1 + 1) <= 8);
            assert(false);
        }
    } else {
        lemma_slide_characterization(b, x, y, c, kind, k + 1, d);
        let dxk = k / 3 - 1;
        let dyk = k % 3 - 1;
        lemma_ray_characterization(b, x, y, c, dxk, dyk, 1, d);
        let s = slide(b, x, y, c, kind, k);
        let rest = slide(b, x, y, c, kind, k + 1);
        if dir_ok(kind, dxk, dyk) {
            let head = ray(b, x, y, c, dxk, dyk, 1);
            assert(s == head + rest);
            if seq_has_dest(s, d) {
                let j = choose|j: int| 0 <= j < s.len() && (#[trigger] s[j]).0 as int == d;
                if j < head.len() {
                    assert(head[j].0 as int == d);
                    assert(ray_hits(b, x, y, c, dxk, dyk, 1, d));
                    assert((dxk, dyk).0 == dxk && (dxk, dyk).1 == dyk);
                    assert(ray_hits(b, x, y, c, (dxk, dyk).0, (dxk, dyk).1, 1, d));
                } else {
                    assert(rest[j - head.len()].0 as int == d);
                }
            }
            if exists|dxy: (int, int)|
                #![trigger ray_hits(b, x, y, c, dxy.0, dxy.1, 1, d)]
                -1 <= dxy.0 <= 1 && -1 <= dxy.1 <= 1 && (dxy.0 + 1) * 3 + (dxy.1 + 1) >= k
                    && dir_ok(kind, dxy.0, dxy.1) && ray_hits(b, x, y, c, dxy.0, dxy.1, 1, d) {
                let dxy = choose|dxy: (int, int)|
                    #![trigger ray_hits(b, x, y, c, dxy.0, dxy.1, 1, d)]
                    -1 <= dxy.0 <= 1 && -1 <= dxy.1 <= 1 && (dxy.0 + 1) * 3 + (dxy.1 + 1) >= k
                        && dir_ok(kind, dxy.0, dxy.1) && ray_hits(b, x, y, c, dxy.0, dxy.1, 1, d);
                if (dxy.0 + 1) * 3 + (dxy.1 + 1) == k {
                    assert(dxy.0 == dxk && dxy.1 == dyk);
                    assert(seq_has_dest(head, d));
                    let j = choose|j: int|
                        0 <= j < head.len() && (#[trigger] head[j]).0 as int == d;
                    assert(s[j].0 as int == d);
                } else {
                    assert(seq_has_dest(rest, d));
                    let j = choose|j: int|
                        0 <= j < rest.len() && (#[trigger] rest[j]).0 as int == d;
                    assert(s[head.len() + j].0 as int == d);
                }
            }
        } else {
            assert(s == rest);
        }
    }
}

/// The sliding pieces' reachable set, stated geometrically: a rook, bishop or
/// queen reaches a square exactly when it lies along one of the kind's
/// movement directions with every square strictly between empty and no figure
/// of its own color standing on it.
pub proof fn lemma_sliding_reachable(b: BoardSpec, src: int, chk: bool, d: int)
    requires
        b.fields.len() == 64,
        0 <= src < 64,
        b.fields[src].figure_type == FigureType::ROOK || b.fields[src].figure_type
            == FigureType::BISHOP || b.fields[src].figure_type == FigureType::QUEEN,
        b.fields[src].figure_color != FigureColor::NONE,
    ensures
        seq_has_dest(reachable_spec(b, src, chk), d) <==> slide_dir_hits(
            b,
            src % 8,
            src / 8,
            b.fields[src].figure_color,
            b.fields[src].figure_type,
            d,
        ),
{
    let c = b.fields[src].figure_color;
    let kind = b.fields[src].figure_type;
    let x = src % 8;
    let y = src / 8;
    assert(0 <= x < 8 && 0 <= y < 8);
    lemma_slide_characterization(b, x, y, c, kind, 0, d);
}

proof fn lemma_legal_filter_elems(b: BoardSpec, src: int, s: Seq<(i8, FigureType)>, j: int)
    ensures
        forall|q: int|
            0 <= q < legal_filter(b, src, s, j).len() ==> is_legal_spec(
                b,
                src,
                #[trigger] legal_filter(b, src, s, j)[q],
            ),
    decreases s.len() - j,
{
    if 0 <= j < s.len() {
        lemma_legal_filter_elems(b, src, s, j + 1);
        let lf = legal_filter(b, src, s, j);
        let rest = legal_filter(b, src, s, j + 1);
        assert forall|q: int| 0 <= q < lf.len() implies is_legal_spec(b, src, lf[q]) by {
            if is_legal_spec(b, src, s[j]) {
                assert(lf == seq![s[j]] + rest);
                if q > 0 {
                    assert(lf[q] == rest[q - 1]);
                }
            } else {
                assert(lf == rest);
            }
        }
    }
}

/// No legal move exposes the mover's own king: applying any move the legality
/// filter keeps leaves that king unattacked. This one filter covers pins,
/// moving into check, and castling through check uniformly.
pub proof fn lemma_legal_moves_never_expose_king(b: BoardSpec, src: int, q: int)
    requires
        0 <= q < legal_moves_spec(b, src).len(),
    ensures
        ({
            let m = legal_moves_spec(b, src)[q];
            !king_checked_spec(
                play_spec(b, src, m.0 as int, m.1),
                b.fields[src].figure_color,
            )
        }),
{
    lemma_legal_filter_elems(b, src, reachable_spec(b, src, true), 0);
}

/// Castling rights are never restored: every flag still set after a move was
/// already set before it.
pub proof fn lemma_rights_never_restored(b: BoardSpec, src: int, tgt: int, promo: FigureType)
    ensures
        play_spec(b, src, tgt, promo).castle_rights.K ==> b.castle_rights.K,
        play_spec(b, src, tgt, promo).castle_rights.Q ==> b.castle_rights.Q,
        play_spec(b, src, tgt, promo).castle_rights.k ==> b.castle_rights.k,
        play_spec(b, src, tgt, promo).castle_rights.q ==> b.castle_rights.q,
{
}

/// A corner rook that moves forfeits its corner's castling flag, and so does
/// a corner square that is moved onto - a captured rook loses its corner's
/// right even though the king never moved. Together with
/// `lemma_rights_never_restored` the loss is permanent.
pub proof fn lemma_moved_or_captured_rook_forfeits(
    b: BoardSpec,
    src: int,
    tgt: int,
    promo: FigureType,
)
    ensures
        b.fields[src].figure_type == FigureType::ROOK && src == 0 ==> !play_spec(
            b,
            src,
            tgt,
            promo,
        ).castle_rights.q,
        b.fields[src].figure_type == FigureType::ROOK && src == 7 ==> !play_spec(
            b,
            src,
            tgt,
            promo,
        ).castle_rights.k,
        b.fields[src].figure_type == FigureType::ROOK && src == 56 ==> !play_spec(
            b,
            src,
            tgt,
            promo,
        ).castle_rights.Q,
        b.fields[src].figure_type == FigureType::ROOK && src == 63 ==> !play_spec(
            b,
            src,
            tgt,
            promo,
        ).castle_rights.K,
        tgt == 0 ==> !play_spec(b, src, tgt, promo).castle_rights.q,
        tgt == 7 ==> !play_spec(b, src, tgt, promo).castle_rights.k,
        tgt == 56 ==> !play_spec(b, src, tgt, promo).castle_rights.Q,
        tgt == 63 ==> !play_spec(b, src, tgt, promo).castle_rights.K,
{
}

/// The side to move strictly alternates: every applied move flips it,
/// whatever the move was.
pub proof fn lemma_side_to_move_alternates(b: BoardSpec, src: int, tgt: int, promo: FigureType)
    ensures
        play_spec(b, src, tgt, promo).active == (if b.active == FigureColor::WHITE {
            FigureColor::BLACK
        } else {
            FigureColor::WHITE
        }),
{
}

/// A pawn's double step sets the en-passant target to exactly the one square
/// it skipped; every other move clears the target, so a target is valid for
/// the immediately following move only.
pub proof fn lemma_en_passant_lifecycle(b: BoardSpec, src: int, tgt: int, promo: FigureType)
    requires
        0 <= src < 64,
        0 <= tgt < 64,
    ensures
        (b.fields[src].figure_type == FigureType::PAWN && abs_i(src - tgt) == 16) ==> play_spec(
            b,
            src,
            tgt,
            promo,
        ).en_passant == (src + tgt) / 2,
        !(b.fields[src].figure_type == FigureType::PAWN && abs_i(src - tgt) == 16) ==> play_spec(
            b,
            src,
            tgt,
            promo,
        ).en_passant == -1,
{
}

/// With no legal move at positive remaining depth, the search returns the
/// loss sentinel -32767 when the side to move stands in check (checkmate) and
/// zero when it does not (stalemate); the cache and the chosen move are left
/// untouched.
pub proof fn lemma_search_terminal_scores(
    b: BoardSpec,
    t: Map<u64, PositionDescription>,
    depth: int,
    max_depth: int,
    alpha: i32,
    beta: i32,
    best: (i8, (i8, FigureType)),
)
    requires
        depth > 0,
        all_moves_spec(b).len() == 0,
    ensures
        king_checked_spec(b, b.active) ==> search_rec(b, t, depth, max_depth, alpha, beta, best)
            == (-32767i32, t, best),
        !king_checked_spec(b, b.active) ==> search_rec(b, t, depth, max_depth, alpha, beta, best)
            == (0i32, t, best),
{
}

} // verus!
