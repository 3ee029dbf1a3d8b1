//! User interaction boundary: the actions a player can request, the
//! abstract interface the controller drives, a deterministic scripted
//! implementation for driving games without a terminal, and the decoder
//! for textual move coordinates.

use vstd::prelude::*;
use vstd::string::StrSliceExecFns;
use crate::board::Board;
use crate::error::GoError;

verus! {

#[derive(Clone, Copy, Debug, PartialEq, Eq, Structural)]
pub enum UserAction {
    Move(usize, usize),
    Quit,
    Noop,
}

/// The abstract capability pair the controller depends on: produce the
/// next user action, and render a read-only board snapshot. Implementors
/// may block or fail; the rules engine itself performs no input/output.
pub trait UserInterface {
    /// User input, which will be passed to the controller.
    fn input(&mut self) -> Result<UserAction, GoError>;

    /// View the model.
    fn view(&mut self, board: &Board) -> Result<(), GoError>;
}

/// A deterministic test double: plays a fixed list of moves in order and
/// then quits. Lets the state machine be driven without any terminal.
pub struct ScriptedUi {
    pub moves: Vec<(usize, usize)>,
    pub next: usize,
}

impl ScriptedUi {
    pub fn new(moves: Vec<(usize, usize)>) -> (r: ScriptedUi)
        ensures
            r.moves == moves,
            r.next == 0,
    {
        ScriptedUi { moves, next: 0 }
    }
}

impl ScriptedUi {
    /// The scripted step: while moves remain, hand out the next one in
    /// order; once the list is exhausted, quit. Never fails.
    pub fn next_action(&mut self) -> (r: Result<UserAction, GoError>)
        ensures
            old(self).next < old(self).moves@.len() ==> r == Result::<UserAction, GoError>::Ok(
                UserAction::Move(
                    old(self).moves@[old(self).next as int].0,
                    old(self).moves@[old(self).next as int].1,
                ),
            ) && final(self).moves == old(self).moves && final(self).next == old(self).next + 1,
            old(self).next >= old(self).moves@.len() ==> r == Result::<UserAction, GoError>::Ok(
                UserAction::Quit,
            ) && *final(self) == *old(self),
    {
        if self.next < self.moves.len() {
            let (r, c) = self.moves[self.next];
            self.next = self.next + 1;
            Ok(UserAction::Move(r, c))
        } else {
            Ok(UserAction::Quit)
        }
    }
}

impl UserInterface for ScriptedUi {
    fn input(&mut self) -> Result<UserAction, GoError> {
        self.next_action()
    }

    fn view(&mut self, _board: &Board) -> Result<(), GoError> {
        Ok(())
    }
}

/// Whitespace that is stripped around a move string.
pub open spec fn is_sp(ch: char) -> bool {
    ch == ' ' || ch == '\t' || ch == '\n' || ch == '\r'
}

/// An ASCII row letter.
pub open spec fn is_alpha(ch: char) -> bool {
    ('a' <= ch && ch <= 'z') || ('A' <= ch && ch <= 'Z')
}

/// An ASCII column digit; the column numbering starts at 1, so '0' never
/// denotes a column.
pub open spec fn is_col_digit(ch: char) -> bool {
    '1' <= ch && ch <= '9'
}

/// The zero-based row a letter denotes: 'a' and 'A' are row 0.
pub open spec fn row_ix(ch: char) -> int {
    if 'a' <= ch && ch <= 'z' {
        ch as int - 'a' as int
    } else {
        ch as int - 'A' as int
    }
}

/// The zero-based column a digit denotes: '1' is column 0.
pub open spec fn col_ix(ch: char) -> int {
    ch as int - '1' as int
}

/// The move string is, after surrounding whitespace, exactly one row
/// letter followed by one column digit.
pub open spec fn valid_move_str(s: Seq<char>) -> bool {
    exists|l: int| #[trigger] move_str_at(s, l)
}

/// The two coordinate characters stand at `l`, with only whitespace
/// around them.
pub open spec fn move_str_at(s: Seq<char>, l: int) -> bool {
    &&& 0 <= l
    &&& l + 2 <= s.len()
    &&& forall|j: int| 0 <= j < l ==> is_sp(#[trigger] s[j])
    &&& forall|j: int| l + 2 <= j < s.len() ==> is_sp(#[trigger] s[j])
    &&& is_alpha(s[l])
    &&& is_col_digit(s[l + 1])
}

/// Where a valid move string's coordinates start is unique.
pub proof fn lemma_move_str_at_unique(s: Seq<char>, l1: int, l2: int)
    requires
        move_str_at(s, l1),
        move_str_at(s, l2),
    ensures
        l1 == l2,
{
    if l1 < l2 {
        assert(is_sp(s[l1]));
    }
    if l2 < l1 {
        assert(is_sp(s[l2]));
    }
}

fn is_space_char(ch: char) -> (r: bool)
    ensures
        r == is_sp(ch),
{
    ch == ' ' || ch == '\t' || ch == '\n' || ch == '\r'
}

fn scan_start(mv: &str) -> (l: usize)
    ensures
        l <= mv@.len(),
        forall|j: int| 0 <= j < l ==> is_sp(#[trigger] mv@[j]),
        l < mv@.len() ==> !is_sp(mv@[l as int]),
{
    let len = mv.unicode_len();
    let mut l: usize = 0;
    while l < len
        invariant
            l <= len,
            len == mv@.len(),
            forall|j: int| 0 <= j < l ==> is_sp(#[trigger] mv@[j]),
        decreases len - l,
    {
        if !is_space_char(mv.get_char(l)) {
            return l;
        }
        l += 1;
    }
    l
}

fn scan_end(mv: &str) -> (r: usize)
    ensures
        r <= mv@.len(),
        forall|j: int| r <= j < mv@.len() ==> is_sp(#[trigger] mv@[j]),
        r > 0 ==> !is_sp(mv@[r as int - 1]),
{
    let len = mv.unicode_len();
    let mut r: usize = len;
    while r > 0
        invariant
            r <= len,
            len == mv@.len(),
            forall|j: int| r <= j < mv@.len() ==> is_sp(#[trigger] mv@[j]),
        decreases r,
    {
        if !is_space_char(mv.get_char(r - 1)) {
            return r;
        }
        r -= 1;
    }
    r
}

/// Decode a textual move: one alphabetic row letter then one column digit
/// ("a1" or "A1" is row 0, column 0), with surrounding whitespace ignored.
/// Anything else is rejected with no result.
pub fn parse_move_position(mv: &str) -> (res: Result<(usize, usize), GoError>)
    ensures
        res is Ok <==> valid_move_str(mv@),
        res matches Ok(v) ==> exists|l: int|
            #[trigger] move_str_at(mv@, l) && v.0 == row_ix(mv@[l]) && v.1 == col_ix(mv@[l + 1]),
        res is Err ==> res == Result::<(usize, usize), GoError>::Err(GoError::InvalidMove),
    {
    let l = scan_start(mv);
    let r = scan_end(mv);
    if r < 2 || l > r - 2 || r - l != 2 {
        proof {
            if valid_move_str(mv@) {
                let lw = choose|lw: int| move_str_at(mv@, lw);
                assert(!is_sp(mv@[lw]));
                assert(!is_sp(mv@[lw + 1]));
                assert(lw >= l);
                assert(l >= lw) by {
                    if l > lw {
                        assert(is_sp(mv@[lw]));
                    }
                }
                assert(r >= lw + 2) by {
                    if r < lw + 2 {
                        assert(is_sp(mv@[lw + 1]));
                    }
                }
                assert(r <= lw + 2) by {
                    if r > lw + 2 {
                        assert(is_sp(mv@[r as int - 1]));
                    }
                }
                assert(false);
            }
        }
        return Err(GoError::InvalidMove);
    }
    let c0 = mv.get_char(l);
    let c1 = mv.get_char(l + 1);
    let b0 = c0 as u32;
    let b1 = c1 as u32;
    let alpha = (b0 >= 97 && b0 <= 122) || (b0 >= 65 && b0 <= 90);
    let digit = b1 >= 49 && b1 <= 57;
    proof {
        assert(alpha == is_alpha(c0));
        assert(digit == is_col_digit(c1));
    }
    if !alpha || !digit {
        proof {
            if valid_move_str(mv@) {
                let lw = choose|lw: int| move_str_at(mv@, lw);
                lemma_move_str_at_unique(mv@, lw, l as int);
            }
        }
        return Err(GoError::InvalidMove);
    }
    let rowv: usize = if b0 >= 97 {
        (b0 - 97) as usize
    } else {
        (b0 - 65) as usize
    };
    let colv: usize = (b1 - 49) as usize;
    proof {
        assert(move_str_at(mv@, l as int));
    }
    Ok((rowv, colv))
}

/// The line is, after surrounding whitespace, exactly the quit command.
pub open spec fn is_quit_str(s: Seq<char>) -> bool {
    exists|l: int| #[trigger] quit_str_at(s, l)
}

/// The single 'q' stands at `l`, with only whitespace around it.
pub open spec fn quit_str_at(s: Seq<char>, l: int) -> bool {
    &&& 0 <= l < s.len()
    &&& s[l] == 'q'
    &&& forall|j: int| 0 <= j < l ==> is_sp(#[trigger] s[j])
    &&& forall|j: int| l + 1 <= j < s.len() ==> is_sp(#[trigger] s[j])
}

/// Decode one input line into a session action: the quit command ends the
/// game; anything else must parse as a move coordinate.
pub fn decode_action(line: &str) -> (res: Result<UserAction, GoError>)
    ensures
        res == Result::<UserAction, GoError>::Ok(UserAction::Quit) <==> is_quit_str(line@),
        !is_quit_str(line@) ==> ((res is Ok) <==> valid_move_str(line@)),
        !is_quit_str(line@) ==> (res matches Ok(a) ==> exists|l: int|
            #[trigger] move_str_at(line@, l) && a == UserAction::Move(
                row_ix(line@[l]) as usize,
                col_ix(line@[l + 1]) as usize,
            )),
        res is Err ==> res == Result::<UserAction, GoError>::Err(GoError::InvalidMove),
{
    let l = scan_start(line);
    let r = scan_end(line);
    if r > l && r - l == 1 && line.get_char(l) == 'q' {
        proof {
            assert(quit_str_at(line@, l as int));
        }
        return Ok(UserAction::Quit);
    }
    proof {
        if is_quit_str(line@) {
            let lw = choose|lw: int| quit_str_at(line@, lw);
            assert(!is_sp(line@[lw]));
            assert(l >= lw) by {
                if l > lw {
                    assert(is_sp(line@[lw]));
                }
            }
            assert(lw >= l);
            assert(r >= lw + 1) by {
                if r < lw + 1 {
                    assert(is_sp(line@[lw]));
                }
            }
            assert(r <= lw + 1) by {
                if r > lw + 1 {
                    assert(is_sp(line@[r as int - 1]));
                }
            }
            assert(false);
        }
    }
    match parse_move_position(line) {
        Ok((row, col)) => Ok(UserAction::Move(row, col)),
        Err(e) => Err(e),
    }
}

} // verus!
