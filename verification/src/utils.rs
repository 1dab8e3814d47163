use vstd::prelude::*;

use crate::models::{
    Board, BoardSpec, CastleRights, Field, FigureColor, FigureType, board_ok, color_ok,
    empty_field, pawn_ok,
};

verus! {

/// Relies on str::chars: yields the string's characters in order, so collected
/// into a vector they are exactly the string's view.
#[verifier::external_body]
fn chars_of(s: &str) -> (r: Vec<char>)
    ensures
        r@ == s@,
{
    s.chars().collect()
}

/// Relies on String::push: appends one character at the end.
#[verifier::external_body]
fn push_char(s: &mut String, c: char)
    ensures
        final(s)@ == old(s)@.push(c),
{
    s.push(c);
}

/// The square index named by two characters of algebraic notation: file letter
/// 'a'..='h' (code 97..=104), then rank digit '1'..='8' (code 49..=56); rank 8
/// is row 0 of the board. Anything that is not two characters long maps to -1.
pub open spec fn pos_to_index_spec(s: Seq<char>) -> int {
    if s.len() == 2 {
        ((s[0] as u32) - 97) + (7 - ((s[1] as u32) - 49)) * 8
    } else {
        -1
    }
}

/// The two characters of algebraic notation naming square index `i`.
pub open spec fn index_to_pos_spec(i: int) -> Seq<char> {
    seq![((97 + i % 8) as u8) as char, ((56 - i / 8) as u8) as char]
}

pub fn translate_position_to_index(pos: &str) -> (r: i8)
    requires
        pos@.len() == 2 ==> (97 <= pos@[0] as u32 <= 104 && 49 <= pos@[1] as u32 <= 56),
    ensures
        r as int == pos_to_index_spec(pos@),
{
    let pos_chars: Vec<char> = chars_of(pos);
    if pos_chars.len() == 2 {
        let c0: u32 = pos_chars[0] as u32;
        let c1: u32 = pos_chars[1] as u32;
        let file: i8 = (c0 as i8) - 97;
        let rank: i8 = 7 - ((c1 as i8) - 49);
        return file + rank * 8;
    }
    return -1;
}

pub fn translate_index_to_position(index: u8) -> (r: String)
    requires
        index < 64,
    ensures
        r@ == index_to_pos_spec(index as int),
{
    let file: u8 = index % 8;
    let rank: u8 = (index - file) / 8;
    let file_char: u8 = file + 97;
    let rank_char: u8 = (7 - rank) + 49;
    let mut s = String::new();
    push_char(&mut s, file_char as char);
    push_char(&mut s, rank_char as char);
    proof {
        assert(s@ =~= index_to_pos_spec(index as int));
    }
    s
}

// ---------------------------------------------------------------------------
// Board import from Forsyth-Edwards-style text:
// "<ranks> <side> <castling> <en-passant> ...". Parsing is strict: a malformed
// field fails with the error kind naming it, instead of silently defaulting.
// ---------------------------------------------------------------------------

/// Which field of a textual board description was malformed.
#[derive(Clone, Copy, PartialEq, Eq, Structural, Debug)]
pub enum FenError {
    RankStructure,
    PieceLetter,
    SideToken,
    CastleToken,
    EnPassantToken,
}

/// The position of the first space at or after `i`, or the length.
pub open spec fn find_sp(s: Seq<char>, i: int) -> int
    decreases s.len() - i,
{
    if i < 0 || i >= s.len() {
        s.len() as int
    } else if s[i] == ' ' {
        i
    } else {
        find_sp(s, i + 1)
    }
}

pub open spec fn empty_fields() -> Seq<Field> {
    Seq::new(64, |i: int| empty_field())
}

/// The figure a board-description letter stands for: lowercase black,
/// uppercase white.
pub open spec fn piece_of(ch: char) -> Option<Field> {
    if ch == 'k' {
        Option::Some(Field { figure_type: FigureType::KING, figure_color: FigureColor::BLACK })
    } else if ch == 'q' {
        Option::Some(Field { figure_type: FigureType::QUEEN, figure_color: FigureColor::BLACK })
    } else if ch == 'r' {
        Option::Some(Field { figure_type: FigureType::ROOK, figure_color: FigureColor::BLACK })
    } else if ch == 'n' {
        Option::Some(Field { figure_type: FigureType::KNIGHT, figure_color: FigureColor::BLACK })
    } else if ch == 'b' {
        Option::Some(Field { figure_type: FigureType::BISHOP, figure_color: FigureColor::BLACK })
    } else if ch == 'p' {
        Option::Some(Field { figure_type: FigureType::PAWN, figure_color: FigureColor::BLACK })
    } else if ch == 'K' {
        Option::Some(Field { figure_type: FigureType::KING, figure_color: FigureColor::WHITE })
    } else if ch == 'Q' {
        Option::Some(Field { figure_type: FigureType::QUEEN, figure_color: FigureColor::WHITE })
    } else if ch == 'R' {
        Option::Some(Field { figure_type: FigureType::ROOK, figure_color: FigureColor::WHITE })
    } else if ch == 'N' {
        Option::Some(Field { figure_type: FigureType::KNIGHT, figure_color: FigureColor::WHITE })
    } else if ch == 'B' {
        Option::Some(Field { figure_type: FigureType::BISHOP, figure_color: FigureColor::WHITE })
    } else if ch == 'P' {
        Option::Some(Field { figure_type: FigureType::PAWN, figure_color: FigureColor::WHITE })
    } else {
        Option::None
    }
}

/// The squares of the description's first field, read over `s[j..e)`: '/' is
/// ignored, a digit 1..=8 skips that many squares, a piece letter fills the
/// next square (a pawn never on a far rank), and exactly 64 squares must be
/// accounted for.
pub open spec fn parse_fields(s: Seq<char>, j: int, e: int, acc: Seq<Field>, i: int) -> Result<
    Seq<Field>,
    FenError,
>
    decreases e - j,
{
    if j < 0 || j >= e {
        if i == 64 {
            Result::Ok(acc)
        } else {
            Result::Err(FenError::RankStructure)
        }
    } else {
        let ch = s[j];
        if ch == '/' {
            parse_fields(s, j + 1, e, acc, i)
        } else if 49 <= ch as u32 <= 56 {
            let d = ch as u32 - 48;
            if i + d <= 64 {
                parse_fields(s, j + 1, e, acc, i + d)
            } else {
                Result::Err(FenError::RankStructure)
            }
        } else {
            match piece_of(ch) {
                Option::Some(f) => {
                    if i >= 64 {
                        Result::Err(FenError::RankStructure)
                    } else if pawn_ok(f, i) {
                        parse_fields(s, j + 1, e, acc.update(i, f), i + 1)
                    } else {
                        Result::Err(FenError::PieceLetter)
                    }
                },
                Option::None => Result::Err(FenError::PieceLetter),
            }
        }
    }
}

pub open spec fn valid_castle_char(c: char) -> bool {
    c == 'K' || c == 'Q' || c == 'k' || c == 'q' || c == '-'
}

pub open spec fn castle_valid(s: Seq<char>, a: int, e: int) -> bool {
    forall|t: int| a <= t < e ==> valid_castle_char(#[trigger] s[t])
}

pub open spec fn has_char(s: Seq<char>, a: int, e: int, c: char) -> bool {
    exists|t: int| a <= t < e && #[trigger] s[t] == c
}

/// The position a whole description denotes, or the first malformed field.
pub open spec fn fen_parse(s: Seq<char>) -> Result<BoardSpec, FenError> {
    let e0 = find_sp(s, 0);
    match parse_fields(s, 0, e0, empty_fields(), 0) {
        Result::Err(err) => Result::Err(err),
        Result::Ok(flds) => {
            if e0 >= s.len() {
                Result::Err(FenError::SideToken)
            } else {
                let a1 = e0 + 1;
                let e1 = find_sp(s, a1);
                if !(e1 - a1 == 1 && (s[a1] == 'w' || s[a1] == 'b')) {
                    Result::Err(FenError::SideToken)
                } else {
                    let active = if s[a1] == 'w' {
                        FigureColor::WHITE
                    } else {
                        FigureColor::BLACK
                    };
                    if e1 >= s.len() {
                        Result::Err(FenError::CastleToken)
                    } else {
                        let a2 = e1 + 1;
                        let e2 = find_sp(s, a2);
                        if !castle_valid(s, a2, e2) {
                            Result::Err(FenError::CastleToken)
                        } else {
                            let cr = CastleRights {
                                K: has_char(s, a2, e2, 'K'),
                                Q: has_char(s, a2, e2, 'Q'),
                                k: has_char(s, a2, e2, 'k'),
                                q: has_char(s, a2, e2, 'q'),
                            };
                            if e2 >= s.len() {
                                Result::Err(FenError::EnPassantToken)
                            } else {
                                let a3 = e2 + 1;
                                let e3 = find_sp(s, a3);
                                if e3 - a3 == 1 && s[a3] == '-' {
                                    Result::Ok(
                                        BoardSpec {
                                            fields: flds,
                                            active,
                                            castle_rights: cr,
                                            en_passant: -1,
                                        },
                                    )
                                } else if e3 - a3 == 2 && 97 <= s[a3] as u32 <= 104 && 49 <= s[a3
                                    + 1] as u32 <= 56 {
                                    Result::Ok(
                                        BoardSpec {
                                            fields: flds,
                                            active,
                                            castle_rights: cr,
                                            en_passant: (s[a3] as u32 - 97) + (7 - (s[a3
                                                + 1] as u32 - 49)) * 8,
                                        },
                                    )
                                } else {
                                    Result::Err(FenError::EnPassantToken)
                                }
                            }
                        }
                    }
                }
            }
        },
    }
}

proof fn lemma_parse_fields_ok(s: Seq<char>, j: int, e: int, acc: Seq<Field>, i: int)
    requires
        0 <= i,
        acc.len() == 64,
        forall|q: int| 0 <= q < 64 ==> pawn_ok(#[trigger] acc[q], q) && color_ok(acc[q]),
    ensures
        match parse_fields(s, j, e, acc, i) {
            Result::Ok(f) => f.len() == 64 && forall|q: int|
                0 <= q < 64 ==> pawn_ok(#[trigger] f[q], q) && color_ok(f[q]),
            Result::Err(_) => true,
        },
    decreases e - j,
{
    if j < 0 || j >= e {
    } else {
        let ch = s[j];
        if ch == '/' {
            lemma_parse_fields_ok(s, j + 1, e, acc, i);
        } else if 49 <= ch as u32 <= 56 {
            if i + (ch as u32 - 48) <= 64 {
                lemma_parse_fields_ok(s, j + 1, e, acc, i + (ch as u32 - 48));
            }
        } else {
            match piece_of(ch) {
                Option::Some(f) => {
                    if i < 64 && pawn_ok(f, i) {
                        let acc2 = acc.update(i, f);
                        assert(acc2.len() == 64);
                        assert forall|q: int| 0 <= q < 64 implies pawn_ok(
                            #[trigger] acc2[q],
                            q,
                        ) && color_ok(acc2[q]) by {
                            if q != i {
                                assert(acc2[q] == acc[q]);
                            }
                        }
                        lemma_parse_fields_ok(s, j + 1, e, acc2, i + 1);
                    }
                },
                Option::None => {},
            }
        }
    }
}

fn find_space(v: &Vec<char>, i: usize) -> (r: usize)
    requires
        i <= v@.len(),
    ensures
        r as int == find_sp(v@, i as int),
        i <= r <= v@.len(),
{
    let mut j = i;
    while j < v.len()
        invariant
            i <= j <= v@.len(),
            find_sp(v@, i as int) == find_sp(v@, j as int),
        decreases v@.len() - j,
    {
        if v[j] == ' ' {
            return j;
        }
        j += 1;
    }
    j
}

fn char_piece(ch: char) -> (r: Option<Field>)
    ensures
        r == piece_of(ch),
{
    if ch == 'k' {
        Option::Some(Field { figure_type: FigureType::KING, figure_color: FigureColor::BLACK })
    } else if ch == 'q' {
        Option::Some(Field { figure_type: FigureType::QUEEN, figure_color: FigureColor::BLACK })
    } else if ch == 'r' {
        Option::Some(Field { figure_type: FigureType::ROOK, figure_color: FigureColor::BLACK })
    } else if ch == 'n' {
        Option::Some(Field { figure_type: FigureType::KNIGHT, figure_color: FigureColor::BLACK })
    } else if ch == 'b' {
        Option::Some(Field { figure_type: FigureType::BISHOP, figure_color: FigureColor::BLACK })
    } else if ch == 'p' {
        Option::Some(Field { figure_type: FigureType::PAWN, figure_color: FigureColor::BLACK })
    } else if ch == 'K' {
        Option::Some(Field { figure_type: FigureType::KING, figure_color: FigureColor::WHITE })
    } else if ch == 'Q' {
        Option::Some(Field { figure_type: FigureType::QUEEN, figure_color: FigureColor::WHITE })
    } else if ch == 'R' {
        Option::Some(Field { figure_type: FigureType::ROOK, figure_color: FigureColor::WHITE })
    } else if ch == 'N' {
        Option::Some(Field { figure_type: FigureType::KNIGHT, figure_color: FigureColor::WHITE })
    } else if ch == 'B' {
        Option::Some(Field { figure_type: FigureType::BISHOP, figure_color: FigureColor::WHITE })
    } else if ch == 'P' {
        Option::Some(Field { figure_type: FigureType::PAWN, figure_color: FigureColor::WHITE })
    } else {
        Option::None
    }
}

/// Reads a textual board description into a position. Succeeds exactly on
/// well-formed input (the returned position is then well formed); a malformed
/// description yields the error kind of the first violated field.
#[verifier::loop_isolation(false)]
pub fn board_from_fen(fen: &str) -> (r: Result<Board, FenError>)
    ensures
        ({
            let p = fen_parse(fen@);
            match r {
                Result::Ok(board) => p == Result::Ok::<BoardSpec, FenError>(board@) && board_ok(
                    board@,
                ),
                Result::Err(e) => p == Result::Err::<BoardSpec, FenError>(e),
            }
        }),
{
    let v = chars_of(fen);
    let ghost s = fen@;
    let e0 = find_space(&v, 0);

    let mut fields: Vec<Field> = Vec::new();
    let mut t: usize = 0;
    while t < 64
        invariant
            t <= 64,
            fields@.len() == t,
            forall|q: int| 0 <= q < t ==> fields@[q] == empty_field(),
        decreases 64 - t,
    {
        fields.push(Field { figure_type: FigureType::NONE, figure_color: FigureColor::NONE });
        t += 1;
    }
    proof {
        assert(fields@ =~= empty_fields());
    }

    let mut i: usize = 0;
    let mut j: usize = 0;
    while j < e0
        invariant
            j <= e0,
            v@ == s,
            s == fen@,
            e0 as int == find_sp(s, 0),
            e0 <= v@.len(),
            i <= 64,
            fields@.len() == 64,
            parse_fields(s, 0, e0 as int, empty_fields(), 0) == parse_fields(
                s,
                j as int,
                e0 as int,
                fields@,
                i as int,
            ),
        decreases e0 - j,
    {
        let ch = v[j];
        if ch == '/' {
        } else {
            let code = ch as u32;
            if 49 <= code && code <= 56 {
                let d = (code - 48) as usize;
                if i + d > 64 {
                    return Result::Err(FenError::RankStructure);
                }
                i += d;
            } else {
                match char_piece(ch) {
                    Option::Some(f) => {
                        if i >= 64 {
                            return Result::Err(FenError::RankStructure);
                        }
                        let place_ok = if f.figure_type == FigureType::PAWN {
                            if f.figure_color == FigureColor::WHITE {
                                i >= 8
                            } else {
                                i < 56
                            }
                        } else {
                            true
                        };
                        if !place_ok {
                            return Result::Err(FenError::PieceLetter);
                        }
                        fields.set(i, f);
                        i += 1;
                    },
                    Option::None => {
                        return Result::Err(FenError::PieceLetter);
                    },
                }
            }
        }
        j += 1;
    }
    if i != 64 {
        return Result::Err(FenError::RankStructure);
    }
    proof {
        lemma_parse_fields_ok(s, 0, e0 as int, empty_fields(), 0);
        assert(parse_fields(s, 0, e0 as int, empty_fields(), 0) == Result::Ok::<
            Seq<Field>,
            FenError,
        >(fields@));
    }

    if e0 >= v.len() {
        return Result::Err(FenError::SideToken);
    }
    let a1 = e0 + 1;
    let e1 = find_space(&v, a1);
    let mut active = FigureColor::NONE;
    if e1 - a1 == 1 {
        if v[a1] == 'w' {
            active = FigureColor::WHITE;
        } else if v[a1] == 'b' {
            active = FigureColor::BLACK;
        }
    }
    if active == FigureColor::NONE {
        return Result::Err(FenError::SideToken);
    }

    if e1 >= v.len() {
        return Result::Err(FenError::CastleToken);
    }
    let a2 = e1 + 1;
    let e2 = find_space(&v, a2);
    let mut rights = CastleRights { K: false, Q: false, k: false, q: false };
    let mut t2 = a2;
    while t2 < e2
        invariant
            a2 <= t2 <= e2,
            v@ == s,
            s == fen@,
            e2 as int == find_sp(s, a2 as int),
            e2 <= v@.len(),
            forall|q: int| a2 <= q < t2 ==> valid_castle_char(#[trigger] s[q]),
            rights.K == has_char(s, a2 as int, t2 as int, 'K'),
            rights.Q == has_char(s, a2 as int, t2 as int, 'Q'),
            rights.k == has_char(s, a2 as int, t2 as int, 'k'),
            rights.q == has_char(s, a2 as int, t2 as int, 'q'),
        decreases e2 - t2,
    {
        let ch = v[t2];
        if ch == 'K' {
            rights.K = true;
        } else if ch == 'Q' {
            rights.Q = true;
        } else if ch == 'k' {
            rights.k = true;
        } else if ch == 'q' {
            rights.q = true;
        } else if ch == '-' {
        } else {
            proof {
                assert(!castle_valid(s, a2 as int, e2 as int));
            }
            return Result::Err(FenError::CastleToken);
        }
        t2 += 1;
    }

    if e2 >= v.len() {
        return Result::Err(FenError::EnPassantToken);
    }
    let a3 = e2 + 1;
    let e3 = find_space(&v, a3);
    let mut ep: i8 = -1;
    if e3 - a3 == 1 && v[a3] == '-' {
        ep = -1;
    } else if e3 - a3 == 2 {
        let c0 = v[a3] as u32;
        let c1 = v[a3 + 1] as u32;
        if 97 <= c0 && c0 <= 104 && 49 <= c1 && c1 <= 56 {
            ep = ((c0 - 97) + (7 - (c1 - 49)) * 8) as i8;
        } else {
            return Result::Err(FenError::EnPassantToken);
        }
    } else {
        return Result::Err(FenError::EnPassantToken);
    }

    let board = Board { fields, active, castle_rights: rights, en_passant: ep };
    proof {
        assert(fen_parse(s) == Result::Ok::<BoardSpec, FenError>(board@));
        assert(board_ok(board@));
    }
    Result::Ok(board)
}

} // verus!
