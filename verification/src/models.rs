use vstd::prelude::*;

verus! {

/// Which side a figure belongs to; `NONE` marks an empty square.
#[derive(Clone, Copy, PartialEq, Eq, Structural, Debug)]
#[allow(non_camel_case_types)]
pub enum FigureColor {
    BLACK,
    WHITE,
    NONE,
}

/// The six chess piece kinds; `NONE` marks an empty square.
#[derive(Clone, Copy, PartialEq, Eq, Structural, Debug)]
#[allow(non_camel_case_types)]
pub enum FigureType {
    KING,
    QUEEN,
    BISHOP,
    KNIGHT,
    ROOK,
    PAWN,
    NONE,
}

/// One square's state: which kind of figure stands on it, and whose it is.
#[derive(Clone, Copy, PartialEq, Eq, Structural, Debug)]
pub struct Field {
    pub figure_type: FigureType,
    pub figure_color: FigureColor,
}

/// The four castling flags, named as in Forsyth-Edwards notation:
/// `K`/`Q` white king-side and queen-side, `k`/`q` the same for black.
#[derive(Clone, Copy, PartialEq, Eq, Structural, Debug)]
#[allow(non_snake_case)]
pub struct CastleRights {
    pub K: bool,
    pub Q: bool,
    pub k: bool,
    pub q: bool,
}

/// A cached evaluation: the score found for a position, and the remaining
/// search depth at which it was computed.
#[derive(Clone, Copy, PartialEq, Eq, Structural, Debug)]
pub struct PositionDescription {
    pub score: i32,
    pub search_depth: u8,
}

/// A full position: 64 squares in row-major order (square = file + rank * 8,
/// index 0 being the top-left corner from white's point of view, so black's
/// back rank is row 0 and white's is row 7), the side to move, the castling
/// flags, and the en-passant target square (-1 when there is none).
#[derive(Debug)]
pub struct Board {
    pub fields: Vec<Field>,
    pub active: FigureColor,
    pub castle_rights: CastleRights,
    pub en_passant: i8,
}

/// The mathematical model of a `Board`: the same data with the squares as a
/// sequence and the en-passant target as an unbounded integer.
#[verifier::ext_equal]
pub ghost struct BoardSpec {
    pub fields: Seq<Field>,
    pub active: FigureColor,
    pub castle_rights: CastleRights,
    pub en_passant: int,
}

impl View for Board {
    type V = BoardSpec;

    open spec fn view(&self) -> BoardSpec {
        BoardSpec {
            fields: self.fields@,
            active: self.active,
            castle_rights: self.castle_rights,
            en_passant: self.en_passant as int,
        }
    }
}

pub open spec fn empty_field() -> Field {
    Field { figure_type: FigureType::NONE, figure_color: FigureColor::NONE }
}

/// A pawn never stands on the rank it would promote to (nor behind it), so one
/// forward step from any pawn square stays on the board.
pub open spec fn pawn_ok(f: Field, i: int) -> bool {
    f.figure_type == FigureType::PAWN ==> if f.figure_color == FigureColor::WHITE {
        i >= 8
    } else {
        i < 56
    }
}

/// A square is empty exactly when it carries no color.
pub open spec fn color_ok(f: Field) -> bool {
    (f.figure_type == FigureType::NONE) <==> (f.figure_color == FigureColor::NONE)
}

/// What move generation needs of a board: 64 squares, and every pawn on a rank
/// from which its forward step stays on the board. The check detector probes
/// boards where an empty square temporarily carries a color, so nothing more
/// is asked here.
pub open spec fn gen_ok(b: BoardSpec) -> bool {
    &&& b.fields.len() == 64
    &&& forall|i: int| 0 <= i < 64 ==> pawn_ok(#[trigger] b.fields[i], i)
}

/// A well-formed position: `gen_ok`, a real side to move, occupied squares
/// colored and empty ones not, and an en-passant target on the board or -1.
pub open spec fn board_ok(b: BoardSpec) -> bool {
    &&& b.fields.len() == 64
    &&& (b.active == FigureColor::WHITE || b.active == FigureColor::BLACK)
    &&& forall|i: int|
        0 <= i < 64 ==> pawn_ok(#[trigger] b.fields[i], i) && color_ok(b.fields[i])
    &&& -1 <= b.en_passant < 64
}

pub proof fn lemma_board_ok_gen_ok(b: BoardSpec)
    requires
        board_ok(b),
    ensures
        gen_ok(b),
{
}

impl Board {
    /// An exact copy. `Board` holds a `Vec`, so the copy is spelled out
    /// instead of derived, which lets its effect be stated precisely.
    pub fn duplicate(&self) -> (r: Board)
        ensures
            r@ == self@,
    {
        let mut fields: Vec<Field> = Vec::new();
        let mut i: usize = 0;
        while i < self.fields.len()
            invariant
                i <= self.fields.len(),
                fields@.len() == i,
                forall|k: int| 0 <= k < i ==> fields@[k] == self.fields@[k],
            decreases self.fields.len() - i,
        {
            fields.push(self.fields[i]);
            i = i + 1;
        }
        proof {
            assert(fields@ =~= self.fields@);
        }
        Board {
            fields,
            active: self.active,
            castle_rights: self.castle_rights,
            en_passant: self.en_passant,
        }
    }
}

} // verus!
