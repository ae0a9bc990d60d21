//! The command language: moves, commands and saved positions as text.

use crate::board::{CPosMove, Move, MoveOutcome, Side};
use crate::compound::{resalted, CompoundPosition};
use crate::eval::{eval, eval_found, EvaluablePosition};
use crate::model::SimpleView;
use crate::nimstring::{calc_value_with_moves, values_found, Value};
use crate::position::{outcome_of_move, Position};
use crate::render::{cpos_move_text, decimal, decimal_text, move_text};
use crate::simple::{blank, board_ok, SimplePosition};
use vstd::prelude::*;
use vstd::string::StrSliceExecFns;
use vstd::string::StringExecFns;

verus! {

/// The place of the first `c` in `s` at or after `from`; the length of `s`
/// if there is none.
pub open spec fn find(s: Seq<char>, c: char, from: int) -> int
    decreases s.len() - from,
{
    if from >= s.len() {
        s.len() as int
    } else if s[from] == c {
        from
    } else {
        find(s, c, from + 1)
    }
}

/// The value of a decimal digit, if `c` is one.
pub open spec fn digit_of(c: char) -> Option<nat> {
    if c == '0' {
        Some(0)
    } else if c == '1' {
        Some(1)
    } else if c == '2' {
        Some(2)
    } else if c == '3' {
        Some(3)
    } else if c == '4' {
        Some(4)
    } else if c == '5' {
        Some(5)
    } else if c == '6' {
        Some(6)
    } else if c == '7' {
        Some(7)
    } else if c == '8' {
        Some(8)
    } else if c == '9' {
        Some(9)
    } else {
        None
    }
}

/// Every character of `s` is a decimal digit.
pub open spec fn all_digits(s: Seq<char>) -> bool {
    forall|i: int| 0 <= i < s.len() ==> digit_of(#[trigger] s[i]) is Some
}

/// The number that the digits `s` denote.
pub open spec fn digits_value(s: Seq<char>) -> nat
    decreases s.len(),
{
    if s.len() == 0 {
        0
    } else {
        digits_value(s.drop_last()) * 10 + digit_of(s.last())->0
    }
}

/// The number that `s` denotes, if `s` is one digit or more and the number
/// fits a `usize`.
pub open spec fn number_of(s: Seq<char>) -> Option<usize> {
    if s.len() > 0 && all_digits(s) && digits_value(s) <= usize::MAX {
        Some(digits_value(s) as usize)
    } else {
        None
    }
}

/// `c` is a letter of the English alphabet.
pub open spec fn is_letter(c: char) -> bool {
    ('a' <= c && c <= 'z') || ('A' <= c && c <= 'Z')
}

/// Every character of `s` is a letter.
pub open spec fn all_letters(s: Seq<char>) -> bool {
    forall|i: int| 0 <= i < s.len() ==> is_letter(#[trigger] s[i])
}

/// The lower-case form of an upper-case letter of the English alphabet;
/// any other character as it is.
pub open spec fn lower(c: char) -> char {
    if 'A' <= c && c <= 'Z' {
        ((c as u32) + 32) as char
    } else {
        c
    }
}

/// `s` with every letter of the English alphabet in lower case.
pub open spec fn lowered(s: Seq<char>) -> Seq<char> {
    Seq::new(s.len(), |i: int| lower(s[i]))
}

/// `s` without the white space at its two ends, as `str::trim` of the
/// standard library gives it.
pub uninterp spec fn trimmed(s: Seq<char>) -> Seq<char>;

/// Calls `str::to_ascii_lowercase`, which maps the letters `A` to `Z` to
/// `a` to `z` and leaves every other character as it is.
#[verifier::external_body]
fn ascii_lowercase(s: &str) -> (low: String)
    ensures
        low@ == lowered(s@),
{
    s.to_ascii_lowercase()
}

/// Calls `str::trim`, which gives the part of the text between its leading
/// and its trailing white space. Only that the result depends on the text
/// alone is claimed.
#[verifier::external_body]
pub(crate) fn trim(s: &str) -> (inner: &str)
    ensures
        inner@ == trimmed(s@),
{
    s.trim()
}

/// Whether two texts are the same.
fn same_text(a: &str, b: &str) -> (same: bool)
    ensures
        same == (a@ == b@),
{
    let n = a.unicode_len();
    if n != b.unicode_len() {
        return false;
    }
    let mut i: usize = 0;
    while i < n
        invariant
            i <= n,
            n == a@.len(),
            n == b@.len(),
            forall|j: int| 0 <= j < i ==> a@[j] == b@[j],
        decreases n - i,
    {
        if a.get_char(i) != b.get_char(i) {
            return false;
        }
        i += 1;
    }
    assert(a@ =~= b@);
    true
}

/// The place of the first `c` at or after `from`.
fn find_char(s: &str, c: char, from: usize) -> (at: usize)
    requires
        from <= s@.len(),
    ensures
        at == find(s@, c, from as int),
        from <= at <= s@.len(),
        at < s@.len() ==> s@[at as int] == c,
        forall|j: int| from <= j < at ==> s@[j] != c,
{
    let n = s.unicode_len();
    let mut i: usize = from;
    while i < n
        invariant
            from <= i <= n,
            n == s@.len(),
            find(s@, c, i as int) == find(s@, c, from as int),
            forall|j: int| from <= j < i ==> s@[j] != c,
        decreases n - i,
    {
        if s.get_char(i) == c {
            return i;
        }
        i += 1;
    }
    n
}

/// The value of a decimal digit.
fn digit_value(c: char) -> (d: Option<usize>)
    ensures
        match d {
            Some(n) => digit_of(c) == Some(n as nat) && n < 10,
            None => digit_of(c) is None,
        },
{
    if c == '0' {
        Some(0)
    } else if c == '1' {
        Some(1)
    } else if c == '2' {
        Some(2)
    } else if c == '3' {
        Some(3)
    } else if c == '4' {
        Some(4)
    } else if c == '5' {
        Some(5)
    } else if c == '6' {
        Some(6)
    } else if c == '7' {
        Some(7)
    } else if c == '8' {
        Some(8)
    } else if c == '9' {
        Some(9)
    } else {
        None
    }
}

/// A number does not get smaller when digits are added to it.
proof fn lemma_digits_grow(s: Seq<char>, n: int)
    requires
        0 <= n <= s.len(),
        all_digits(s),
    ensures
        digits_value(s.subrange(0, n)) <= digits_value(s),
    decreases s.len() - n,
{
    if n < s.len() {
        let longer = s.subrange(0, n + 1);
        assert(longer.drop_last() =~= s.subrange(0, n));
        assert(digit_of(s[n]) is Some);
        lemma_digits_grow(s, n + 1);
    } else {
        assert(s.subrange(0, n) =~= s);
    }
}

/// The number written in the characters from `from` up to `to`.
#[verifier::rlimit(40)]
fn parse_digits(s: &str, from: usize, to: usize) -> (value: Option<usize>)
    requires
        from <= to <= s@.len(),
    ensures
        value == number_of(s@.subrange(from as int, to as int)),
{
    let ghost t = s@.subrange(from as int, to as int);
    if from == to {
        return None;
    }
    let mut acc: usize = 0;
    let mut i: usize = from;
    while i < to
        invariant
            from <= i <= to <= s@.len(),
            t == s@.subrange(from as int, to as int),
            all_digits(t.subrange(0, i - from)),
            acc == digits_value(t.subrange(0, i - from)),
        decreases to - i,
    {
        let ghost before = t.subrange(0, i - from);
        let ghost after = t.subrange(0, i - from + 1);
        assert(after.drop_last() =~= before);
        assert(after.last() == s@[i as int]);
        let d = match digit_value(s.get_char(i)) {
            Some(d) => d,
            None => {
                assert(digit_of(t[i - from]) is None);
                return None;
            },
        };
        assert forall|j: int| 0 <= j < after.len() implies digit_of(#[trigger] after[j]) is Some by {
            if j < before.len() {
                assert(after[j] == before[j]);
            }
        }
        let grown = match acc.checked_mul(10) {
            Some(m) => m.checked_add(d),
            None => None,
        };
        match grown {
            Some(g) => {
                acc = g;
            },
            None => {
                proof {
                    assert(digits_value(after) > usize::MAX);
                    if all_digits(t) {
                        lemma_digits_grow(t, i - from + 1);
                    }
                }
                return None;
            },
        }
        i += 1;
    }
    assert(t.subrange(0, to - from) =~= t);
    Some(acc)
}

/// Whether the characters from `from` up to `to` are letters, one or more.
fn letters_only(s: &str, from: usize, to: usize) -> (ok: bool)
    requires
        from <= to <= s@.len(),
    ensures
        ok == (from < to && all_letters(s@.subrange(from as int, to as int))),
{
    if from == to {
        return false;
    }
    let ghost t = s@.subrange(from as int, to as int);
    let mut i: usize = from;
    while i < to
        invariant
            from <= i <= to <= s@.len(),
            t == s@.subrange(from as int, to as int),
            forall|j: int| 0 <= j < i - from ==> is_letter(#[trigger] t[j]),
        decreases to - i,
    {
        let c = s.get_char(i);
        if !((c >= 'a' && c <= 'z') || (c >= 'A' && c <= 'Z')) {
            assert(!is_letter(t[i - from]));
            return false;
        }
        i += 1;
    }
    true
}

/// The text `a`, then `b`, then `c`.
fn join3(a: &str, b: &str, c: &str) -> (s: String)
    ensures
        s@ == a@ + b@ + c@,
{
    let mut s = String::from_str(a);
    s.append(b);
    s.append(c);
    s
}

/// The side that a name stands for: `l` or `left`, `r` or `right`, `t` or
/// `top`, `b` or `bottom`.
pub open spec fn side_of(s: Seq<char>) -> Option<Side> {
    if s == "l"@ || s == "left"@ {
        Some(Side::Left)
    } else if s == "r"@ || s == "right"@ {
        Some(Side::Right)
    } else if s == "t"@ || s == "top"@ {
        Some(Side::Top)
    } else if s == "b"@ || s == "bottom"@ {
        Some(Side::Bottom)
    } else {
        None
    }
}

/// The side that a name stands for.
pub fn parse_side(side_s: &str) -> (side: Option<Side>)
    ensures
        side == side_of(side_s@),
{
    if same_text(side_s, "l") || same_text(side_s, "left") {
        Some(Side::Left)
    } else if same_text(side_s, "r") || same_text(side_s, "right") {
        Some(Side::Right)
    } else if same_text(side_s, "t") || same_text(side_s, "top") {
        Some(Side::Top)
    } else if same_text(side_s, "b") || same_text(side_s, "bottom") {
        Some(Side::Bottom)
    } else {
        None
    }
}

/// What is said of a text that is no move.
pub open spec fn not_a_move_text(s: Seq<char>) -> Seq<char> {
    "Could not extract move from ["@ + s + "]"@
}

/// The move that a text stands for: two numbers and the name of a side, a
/// blank between each two of them; or what is wrong with the text.
pub open spec fn simple_move_of(s: Seq<char>) -> Result<Move, Seq<char>> {
    let i = find(s, ' ', 0);
    let j = find(s, ' ', i + 1);
    let x = number_of(s.subrange(0, i));
    let y = number_of(s.subrange(i + 1, j));
    let name = s.subrange(j + 1, s.len() as int);
    if i < s.len() && j < s.len() && x is Some && y is Some && name.len() > 0 && all_letters(name) {
        match side_of(name) {
            Some(side) => Ok(Move { x: x->0, y: y->0, side }),
            None => Err("Unrecognised side: ["@ + name + "]"@),
        }
    } else {
        Err(not_a_move_text(s))
    }
}

/// The move of a compound position that a text stands for. Where there is
/// one part only, a move of that part is taken as it is. Else the text is
/// the number of a part, a blank, and a move of that part.
pub open spec fn compound_move_of(count: nat, s: Seq<char>) -> Result<CPosMove, Seq<char>> {
    let i = find(s, ' ', 0);
    let part = number_of(s.subrange(0, i));
    let rest = s.subrange(i + 1, s.len() as int);
    if count == 1 && simple_move_of(s) is Ok {
        Ok(CPosMove { part: 0, m: simple_move_of(s)->Ok_0 })
    } else if i < s.len() && part is Some && find(s, '\n', i + 1) == s.len() {
        if part->0 >= count {
            Err(
                "Part "@ + decimal_text(part->0 as nat) + " out of bounds (count="@ + decimal_text(
                    count,
                ) + ")"@,
            )
        } else {
            match simple_move_of(rest) {
                Ok(m) => Ok(CPosMove { part: part->0, m }),
                Err(_) => Err("Could not parse ["@ + rest + "] as SimplePosition move"@),
            }
        }
    } else {
        Err(not_a_move_text(s))
    }
}

/// What was read is what the text stands for.
pub open spec fn reads_as<T>(got: Result<T, String>, meant: Result<T, Seq<char>>) -> bool {
    match got {
        Ok(a) => meant == Ok::<T, Seq<char>>(a),
        Err(e) => meant == Err::<T, Seq<char>>(e@),
    }
}

/// Reads a move of a board.
fn parse_simple_move(input: &str) -> (m: Result<Move, String>)
    ensures
        reads_as(m, simple_move_of(input@)),
{
    let n = input.unicode_len();
    let i = find_char(input, ' ', 0);
    if i < n {
        let j = find_char(input, ' ', i + 1);
        if j < n {
            let x = parse_digits(input, 0, i);
            let y = parse_digits(input, i + 1, j);
            if letters_only(input, j + 1, n) {
                if let Some(x) = x {
                    if let Some(y) = y {
                        let side_s = input.substring_char(j + 1, n);
                        return match parse_side(side_s) {
                            Some(side) => Ok(Move { x: x, y: y, side: side }),
                            None => Err(join3("Unrecognised side: [", side_s, "]")),
                        };
                    }
                }
            }
        }
    }
    Err(join3("Could not extract move from [", input, "]"))
}

/// Reads a move of a compound position of `count` parts.
fn parse_compound_move(count: usize, input: &str) -> (m: Result<CPosMove, String>)
    ensures
        reads_as(m, compound_move_of(count as nat, input@)),
{
    // With one part only, the short form of a move is accepted.
    if count == 1 {
        if let Ok(m) = parse_simple_move(input) {
            return Ok(CPosMove { part: 0, m: m });
        }
    }
    let n = input.unicode_len();
    let i = find_char(input, ' ', 0);
    if i < n {
        if let Some(p) = parse_digits(input, 0, i) {
            if find_char(input, '\n', i + 1) == n {
                if p >= count {
                    let mut e = join3("Part ", crate::render::decimal(p).as_str(), " out of bounds (count=");
                    e.append(crate::render::decimal(count).as_str());
                    e.append(")");
                    return Err(e);
                }
                let rest = input.substring_char(i + 1, n);
                return match parse_simple_move(rest) {
                    Ok(m) => Ok(CPosMove { part: p, m: m }),
                    Err(_) => Err(join3("Could not parse [", rest, "] as SimplePosition move")),
                };
            }
        }
    }
    Err(join3("Could not extract move from [", input, "]"))
}

/// The place of a side in the order Top, Bottom, Left, Right.
pub open spec fn side_rank(s: Side) -> nat {
    match s {
        Side::Top => 0,
        Side::Bottom => 1,
        Side::Left => 2,
        Side::Right => 3,
    }
}

/// Moves of a board are listed row by row, in a row from left to right,
/// at a square by side.
pub open spec fn simple_before(a: Move, b: Move) -> bool {
    a.y < b.y || (a.y == b.y && (a.x < b.x || (a.x == b.x && side_rank(a.side) < side_rank(
        b.side,
    ))))
}

/// Moves of a compound are listed part by part, in a part column by column,
/// in a column from top to bottom, at a square by side.
pub open spec fn compound_before(a: CPosMove, b: CPosMove) -> bool {
    a.part < b.part || (a.part == b.part && (a.m.x < b.m.x || (a.m.x == b.m.x && (a.m.y < b.m.y
        || (a.m.y == b.m.y && side_rank(a.m.side) < side_rank(b.m.side))))))
}

fn rank_of(s: Side) -> (r: usize)
    ensures
        r == side_rank(s),
{
    match s {
        Side::Top => 0,
        Side::Bottom => 1,
        Side::Left => 2,
        Side::Right => 3,
    }
}

/// A command.
#[derive(Clone, Copy, Debug, PartialEq)]
pub enum Command<M> {
    MakeMove(M),
    UndoMove(M),
    CalcNimstringValue,
    Evaluate,
    PrintHelp,
    Quit,
}

/// A position that can be worked on through commands.
pub trait CLIPosition<M: Copy>: EvaluablePosition<M> {
    /// The move that the text stands for, or what is wrong with the text.
    spec fn move_of_text(v: Self::V, s: Seq<char>) -> Result<M, Seq<char>>;

    /// The move as text.
    spec fn move_shown(m: M) -> Seq<char>;

    /// How a move is written, for the help.
    spec fn help_line(verb: Seq<char>) -> Seq<char>;

    /// `a` is listed before `b`.
    spec fn before(a: M, b: M) -> bool;

    /// The order of listing is strict and transitive.
    proof fn lemma_before_transitive(a: M, b: M, c: M)
        ensures
            !Self::before(a, a),
            Self::before(a, b) && Self::before(b, c) ==> Self::before(a, c),
    ;

    /// Reads a move.
    fn parse_move(&self, input: &str) -> (m: Result<M, String>)
        requires
            self.wf(),
        ensures
            reads_as(m, Self::move_of_text(self@, input@)),
    ;

    /// Tells the user how to write a move.
    fn move_cmd_help(&self, verb: &str) -> (s: String)
        ensures
            s@ == Self::help_line(verb@),
    ;

    /// Whether `a` is listed before `b`.
    fn shown_before(a: &M, b: &M) -> (first: bool)
        ensures
            first == Self::before(*a, *b),
    ;

    /// Whether `m` names a cut edge, which can be put back.
    fn can_undo(&self, m: M) -> (can: bool)
        requires
            self.wf(),
        ensures
            can == Self::cut_in(self@, m),
    ;

    /// The move as text.
    fn show_move(m: &M) -> (s: String)
        ensures
            s@ == Self::move_shown(*m),
    ;
}

impl CLIPosition<Move> for SimplePosition {
    open spec fn move_of_text(v: SimpleView, s: Seq<char>) -> Result<Move, Seq<char>> {
        simple_move_of(s)
    }

    open spec fn move_shown(m: Move) -> Seq<char> {
        move_text(m)
    }

    open spec fn help_line(verb: Seq<char>) -> Seq<char> {
        "x y t/l/b/r - "@ + verb + " move (x,y) top/left/bottom/right"@
    }

    open spec fn before(a: Move, b: Move) -> bool {
        simple_before(a, b)
    }

    proof fn lemma_before_transitive(a: Move, b: Move, c: Move) {
    }

    fn parse_move(&self, input: &str) -> (m: Result<Move, String>) {
        parse_simple_move(input)
    }

    fn move_cmd_help(&self, verb: &str) -> (s: String) {
        join3("x y t/l/b/r - ", verb, " move (x,y) top/left/bottom/right")
    }

    fn shown_before(a: &Move, b: &Move) -> (first: bool) {
        a.y < b.y || (a.y == b.y && (a.x < b.x || (a.x == b.x && rank_of(a.side) < rank_of(
            b.side,
        ))))
    }

    fn can_undo(&self, m: Move) -> (can: bool) {
        m.x < self.width() && m.y < self.height() && !self.is_legal_move(m)
    }

    fn show_move(m: &Move) -> (s: String) {
        m.render()
    }
}

impl CLIPosition<CPosMove> for CompoundPosition {
    open spec fn move_of_text(v: Seq<SimpleView>, s: Seq<char>) -> Result<CPosMove, Seq<char>> {
        compound_move_of(v.len(), s)
    }

    open spec fn move_shown(m: CPosMove) -> Seq<char> {
        cpos_move_text(m)
    }

    open spec fn help_line(verb: Seq<char>) -> Seq<char> {
        "[p] x y t/l/b/r - "@ + verb + " move (x,y) top/left/bottom/right in part p"@
    }

    open spec fn before(a: CPosMove, b: CPosMove) -> bool {
        compound_before(a, b)
    }

    proof fn lemma_before_transitive(a: CPosMove, b: CPosMove, c: CPosMove) {
    }

    fn parse_move(&self, input: &str) -> (m: Result<CPosMove, String>) {
        parse_compound_move(self.part_count(), input)
    }

    fn move_cmd_help(&self, verb: &str) -> (s: String) {
        join3("[p] x y t/l/b/r - ", verb, " move (x,y) top/left/bottom/right in part p")
    }

    fn shown_before(a: &CPosMove, b: &CPosMove) -> (first: bool) {
        a.part < b.part || (a.part == b.part && (a.m.x < b.m.x || (a.m.x == b.m.x && (a.m.y
            < b.m.y || (a.m.y == b.m.y && rank_of(a.m.side) < rank_of(b.m.side))))))
    }

    fn can_undo(&self, m: CPosMove) -> (can: bool) {
        m.part < self.part_count() && self.part(m.part).can_undo(m.m)
    }

    fn show_move(m: &CPosMove) -> (s: String) {
        m.render()
    }
}

/// What is said of a command that is no command.
pub open spec fn no_command_text(low: Seq<char>, why: Seq<char>) -> Seq<char> {
    "Cannot extract move from ["@ + low + "]: "@ + why
}

/// The command that a text stands for, whatever the case of its letters:
/// `nv`, `eval`, `help`, `exit` or `quit`; `u`, a blank and a move, to take
/// the move back; or a move, to make it.
pub open spec fn command_of<M: Copy, P: CLIPosition<M>>(v: P::V, s: Seq<char>) -> Result<
    Command<M>,
    Seq<char>,
> {
    let low = lowered(s);
    if low == "nv"@ {
        Ok(Command::CalcNimstringValue)
    } else if low == "eval"@ {
        Ok(Command::Evaluate)
    } else if low == "help"@ {
        Ok(Command::PrintHelp)
    } else if low == "exit"@ || low == "quit"@ {
        Ok(Command::Quit)
    } else if low.len() >= 2 && (low[0] == 'u' || low[0] == 'U') && low[1] == ' ' && find(
        low,
        '\n',
        2,
    ) == low.len() {
        match P::move_of_text(v, low.subrange(2, low.len() as int)) {
            Ok(m) => Ok(Command::UndoMove(m)),
            Err(e) => Err(no_command_text(low, e)),
        }
    } else {
        match P::move_of_text(v, low) {
            Ok(m) => Ok(Command::MakeMove(m)),
            Err(e) => Err(no_command_text(low, e)),
        }
    }
}

/// Reads a command.
pub fn parse_command<M: Copy, P: CLIPosition<M>>(input: &str, pos: &P) -> (command: Result<
    Command<M>,
    String,
>)
    requires
        pos.wf(),
    ensures
        reads_as(command, command_of::<M, P>(pos@, input@)),
{
    let low_text = ascii_lowercase(input);
    let low = low_text.as_str();
    if same_text(low, "nv") {
        return Ok(Command::CalcNimstringValue);
    }
    if same_text(low, "eval") {
        return Ok(Command::Evaluate);
    }
    if same_text(low, "help") {
        return Ok(Command::PrintHelp);
    }
    if same_text(low, "exit") || same_text(low, "quit") {
        return Ok(Command::Quit);
    }
    let n = low.unicode_len();
    if n >= 2 {
        let first = low.get_char(0);
        if (first == 'u' || first == 'U') && low.get_char(1) == ' ' && find_char(low, '\n', 2)
            == n {
            return match pos.parse_move(low.substring_char(2, n)) {
                Ok(m) => Ok(Command::UndoMove(m)),
                Err(e) => {
                    let mut text = join3("Cannot extract move from [", low, "]: ");
                    text.append(e.as_str());
                    Err(text)
                },
            };
        }
    }
    match pos.parse_move(low) {
        Ok(m) => Ok(Command::MakeMove(m)),
        Err(e) => {
            let mut text = join3("Cannot extract move from [", low, "]: ");
            text.append(e.as_str());
            Err(text)
        },
    }
}

/// The entries are listed in order.
pub open spec fn ordered<M: Copy, P: CLIPosition<M>>(s: Seq<(M, Value)>) -> bool {
    forall|i: int, j: int| 0 <= i < j < s.len() ==> !P::before(#[trigger] s[j].0, #[trigger] s[i].0)
}

/// The entries in the order in which they are shown.
#[verifier::rlimit(40)]
pub fn sort_moves<M: Copy, P: CLIPosition<M>>(items: &Vec<(M, Value)>) -> (sorted: Vec<(M, Value)>)
    ensures
        sorted@.to_multiset() == items@.to_multiset(),
        ordered::<M, P>(sorted@),
{
    let mut sorted: Vec<(M, Value)> = Vec::with_capacity(items.len());
    let mut k: usize = 0;
    assert(items@.subrange(0, 0) =~= Seq::<(M, Value)>::empty());
    while k < items.len()
        invariant
            k <= items@.len(),
            sorted@.to_multiset() == items@.subrange(0, k as int).to_multiset(),
            ordered::<M, P>(sorted@),
        decreases items@.len() - k,
    {
        let item = items[k];
        let mut p: usize = 0;
        while p < sorted.len() && !P::shown_before(&item.0, &sorted[p].0)
            invariant
                p <= sorted@.len(),
                forall|i: int| 0 <= i < p ==> !P::before(item.0, #[trigger] sorted@[i].0),
            decreases sorted@.len() - p,
        {
            p += 1;
        }
        let ghost before = sorted@;
        assert(p < before.len() ==> P::before(item.0, before[p as int].0));
        sorted.insert(p, item);
        proof {
            vstd::seq_lib::to_multiset_insert(before, p as int, item);
            let taken = items@.subrange(0, k as int);
            assert(items@.subrange(0, k + 1) =~= taken.push(item));
            vstd::seq_lib::to_multiset_build(taken, item);
            let now = sorted@;
            assert forall|i: int, j: int| 0 <= i < j < now.len() implies !P::before(
                #[trigger] now[j].0,
                #[trigger] now[i].0,
            ) by {
                if j == p {
                    assert(now[i] == before[i]);
                    assert(now[j] == item);
                } else if i == p {
                    assert(now[i] == item);
                    assert(now[j] == before[j - 1]);
                    assert(P::before(item.0, before[p as int].0));
                    P::lemma_before_transitive(before[j - 1].0, item.0, before[p as int].0);
                    if j - 1 > p {
                        assert(!P::before(before[j - 1].0, before[p as int].0));
                    }
                } else {
                    let bi = if i < p {
                        i
                    } else {
                        i - 1
                    };
                    let bj = if j < p {
                        j
                    } else {
                        j - 1
                    };
                    assert(now[i] == before[bi] && now[j] == before[bj]);
                }
            }
        }
        k += 1;
    }
    assert(items@.subrange(0, items@.len() as int) =~= items@);
    sorted
}

/// What a command brought about.
#[derive(Debug)]
pub enum Reply<M> {
    /// The move was made.
    Moved(MoveOutcome),
    /// The move is not legal; nothing was done.
    NotLegal(M),
    /// The move was taken back.
    Undone,
    /// The move names no cut edge; nothing was done.
    NotUndoable(M),
    /// The Nimstring value of the position, and of the position after each
    /// legal move, in the order of listing.
    Values(Value, Vec<(M, Value)>),
    /// The score of the position and a best move.
    Score(isize, Option<M>),
    /// The user asked for help.
    Help,
    /// The user is leaving.
    Bye,
}

/// What carrying out `command` in `before` does: the position `after` and
/// the reply.
pub open spec fn carried_out<M: Copy, P: CLIPosition<M>>(
    command: Command<M>,
    before: P::V,
    after: P::V,
    reply: Reply<M>,
) -> bool {
    match command {
        Command::MakeMove(m) => if P::legal_in(before, m) {
            after == P::played(before, m) && (reply matches Reply::Moved(o) && outcome_of_move::<
                M,
                P,
            >(before, m, o))
        } else {
            after == before && (reply matches Reply::NotLegal(n) && n == m)
        },
        Command::UndoMove(m) => if P::cut_in(before, m) {
            after == P::unplayed(before, m) && reply is Undone
        } else {
            after == before && (reply matches Reply::NotUndoable(n) && n == m)
        },
        Command::CalcNimstringValue => after == before && match reply {
            Reply::Values(value, shown) => ordered::<M, P>(shown@) && exists|
                per_move: Seq<(M, Value)>,
            |
                values_found::<M, P>(before, value, per_move) && #[trigger] per_move.to_multiset()
                    == shown@.to_multiset(),
            _ => false,
        },
        Command::Evaluate => after == before && match reply {
            Reply::Score(value, best) => eval_found::<M, P>(before, (value, best)),
            _ => false,
        },
        Command::PrintHelp => after == before && reply is Help,
        Command::Quit => after == before && reply is Bye,
    }
}

/// Carries a command out: makes or takes back a move where that can be
/// done, computes what was asked for, and says what is to be told.
pub fn execute<M: Copy, P: CLIPosition<M>>(command: &Command<M>, pos: &mut P) -> (reply: Reply<M>)
    requires
        old(pos).wf(),
    ensures
        final(pos).wf(),
        carried_out::<M, P>(*command, old(pos)@, final(pos)@, reply),
{
    match command {
        Command::MakeMove(m) => {
            if pos.is_legal_move(*m) {
                Reply::Moved(pos.make_move(*m))
            } else {
                Reply::NotLegal(*m)
            }
        },
        Command::UndoMove(m) => {
            if pos.can_undo(*m) {
                pos.undo_move(*m);
                Reply::Undone
            } else {
                Reply::NotUndoable(*m)
            }
        },
        Command::CalcNimstringValue => {
            let (value, per_move) = calc_value_with_moves(&*pos);
            let shown = sort_moves::<M, P>(&per_move);
            Reply::Values(value, shown)
        },
        Command::Evaluate => {
            let (value, best) = eval(&*pos);
            Reply::Score(value, best)
        },
        Command::PrintHelp => Reply::Help,
        Command::Quit => Reply::Bye,
    }
}

/// The number that the digits of `t` from place `i` on add to `acc`, or
/// why there is none.
pub open spec fn int_scan(t: Seq<char>, i: int, acc: nat) -> Result<usize, Seq<char>>
    decreases t.len() - i,
{
    if i >= t.len() {
        Ok(acc as usize)
    } else {
        match digit_of(t[i]) {
            None => Err("invalid digit found in string"@),
            Some(d) => if acc * 10 + d > usize::MAX {
                Err("number too large to fit in target type"@)
            } else {
                int_scan(t, i + 1, acc * 10 + d)
            },
        }
    }
}

/// The number that a text denotes: decimal digits, with a plus sign before
/// them or without; or why it denotes none.
pub open spec fn int_of_text(t: Seq<char>) -> Result<usize, Seq<char>> {
    if t.len() == 0 {
        Err("cannot parse integer from empty string"@)
    } else if t.len() == 1 && (t[0] == '+' || t[0] == '-') {
        Err("invalid digit found in string"@)
    } else if t[0] == '+' {
        int_scan(t, 1, 0)
    } else {
        int_scan(t, 0, 0)
    }
}

/// `front` before what `rest` holds.
pub open spec fn with_front(front: Seq<usize>, rest: Result<Seq<usize>, Seq<char>>) -> Result<
    Seq<usize>,
    Seq<char>,
> {
    match rest {
        Ok(more) => Ok(front + more),
        Err(e) => Err(e),
    }
}

/// The numbers of a line, from place `from` on: the fields between single
/// blanks, each a number; or what is wrong with the first field that is
/// none.
pub open spec fn dims_of(s: Seq<char>, from: int) -> Result<Seq<usize>, Seq<char>>
    decreases s.len() - from,
{
    let i = find(s, ' ', from);
    let field = s.subrange(from, i);
    if from > s.len() {
        Ok(Seq::empty())
    } else {
        match int_of_text(field) {
            Err(why) => Err("Could not parse int from ["@ + field + "]: "@ + why),
            Ok(n) => if i >= s.len() || i < from {
                Ok(seq![n])
            } else {
                with_front(seq![n], dims_of(s, i + 1))
            },
        }
    }
}

/// The first `n` numbers, a comma and a blank between each two.
pub open spec fn items_text(d: Seq<usize>, n: nat) -> Seq<char>
    decreases n,
{
    if n == 0 {
        Seq::empty()
    } else if n == 1 {
        decimal_text(d[0] as nat)
    } else {
        items_text(d, (n - 1) as nat) + ", "@ + decimal_text(d[n - 1] as nat)
    }
}

/// The first of the first `n` pairs of numbers that is no size of a board.
pub open spec fn bad_pair(d: Seq<usize>, n: nat) -> Option<(usize, usize)>
    decreases n,
{
    if n == 0 {
        None
    } else {
        match bad_pair(d, (n - 1) as nat) {
            Some(p) => Some(p),
            None => if board_ok(d[2 * (n - 1)], d[2 * (n - 1) + 1]) {
                None
            } else {
                Some((d[2 * (n - 1)], d[2 * (n - 1) + 1]))
            },
        }
    }
}

/// The compound of new games of the given sizes.
pub open spec fn start_of(d: Seq<usize>) -> Seq<SimpleView> {
    Seq::new(
        d.len() / 2,
        |i: int| resalted(blank(d[2 * i] as nat, d[2 * i + 1] as nat, true), i as nat),
    )
}

/// The line is blank or a comment, and stands for nothing.
pub open spec fn skipped(line: Seq<char>) -> bool {
    trimmed(line).len() == 0 || (line.len() > 0 && line[0] == '#')
}

/// What a line of a saved position does to the position: a move is made, a
/// move is taken back, any other command leaves the position as it is; or
/// what is wrong with the line.
pub open spec fn line_effect(v: Seq<SimpleView>, line: Seq<char>) -> Result<
    Seq<SimpleView>,
    Seq<char>,
> {
    if skipped(line) {
        Ok(v)
    } else {
        match command_of::<CPosMove, CompoundPosition>(v, line) {
            Err(e) => Err(e),
            Ok(Command::MakeMove(m)) => if CompoundPosition::legal_in(v, m) {
                Ok(CompoundPosition::played(v, m))
            } else {
                Err("Not a legal move: "@ + cpos_move_text(m))
            },
            Ok(Command::UndoMove(m)) => if CompoundPosition::cut_in(v, m) {
                Ok(CompoundPosition::unplayed(v, m))
            } else {
                Err("Not a move to take back: "@ + cpos_move_text(m))
            },
            Ok(_) => Ok(v),
        }
    }
}

/// The position after the lines from number `k` on.
pub open spec fn replay_from(v: Seq<SimpleView>, lines: Seq<Seq<char>>, k: int) -> Result<
    Seq<SimpleView>,
    Seq<char>,
>
    decreases lines.len() - k,
{
    if k >= lines.len() {
        Ok(v)
    } else {
        match line_effect(v, lines[k]) {
            Ok(next) => replay_from(next, lines, k + 1),
            Err(e) => Err(e),
        }
    }
}

/// The position that the lines of a saved position give: the first line
/// holds width and height of each part, the lines after it are commands;
/// or what is wrong with the first line that is wrong.
pub open spec fn position_of(lines: Seq<Seq<char>>) -> Result<Seq<SimpleView>, Seq<char>> {
    if lines.len() == 0 {
        Err("No lines found"@)
    } else {
        match dims_of(lines[0], 0) {
            Err(e) => Err(e),
            Ok(d) => if d.len() < 2 || d.len() % 2 != 0 {
                Err(
                    "Expected an even number of dimensions and at least 2, found: "@ + ("["@
                        + items_text(d, d.len()) + "]"@),
                )
            } else {
                match bad_pair(d, d.len() / 2) {
                    Some((w, h)) => Err(
                        "Cannot make a board of width "@ + decimal_text(w as nat) + " and height "@
                            + decimal_text(h as nat),
                    ),
                    None => replay_from(start_of(d), lines, 1),
                }
            },
        }
    }
}

/// The texts of the lines.
pub open spec fn texts(lines: Seq<String>) -> Seq<Seq<char>> {
    Seq::new(lines.len(), |i: int| lines[i]@)
}

/// Reads a number as the standard library does.
fn parse_int(s: &str, from: usize, to: usize) -> (n: Result<usize, String>)
    requires
        from <= to <= s@.len(),
    ensures
        reads_as(n, int_of_text(s@.subrange(from as int, to as int))),
{
    let ghost t = s@.subrange(from as int, to as int);
    if from == to {
        return Err(String::from_str("cannot parse integer from empty string"));
    }
    let first = s.get_char(from);
    assert(first == t[0]);
    if to - from == 1 && (first == '+' || first == '-') {
        return Err(String::from_str("invalid digit found in string"));
    }
    let start = if first == '+' {
        from + 1
    } else {
        from
    };
    let mut acc: usize = 0;
    let mut i: usize = start;
    assert(int_of_text(t) == int_scan(t, start - from, 0));
    while i < to
        invariant
            start <= i <= to <= s@.len(),
            from <= start,
            t == s@.subrange(from as int, to as int),
            int_of_text(t) == int_scan(t, start - from, 0),
            int_scan(t, i - from, acc as nat) == int_scan(t, start - from, 0),
        decreases to - i,
    {
        assert(t[i - from] == s@[i as int]);
        let d = match digit_value(s.get_char(i)) {
            Some(d) => d,
            None => {
                return Err(String::from_str("invalid digit found in string"));
            },
        };
        let grown = match acc.checked_mul(10) {
            Some(m) => m.checked_add(d),
            None => None,
        };
        match grown {
            Some(g) => {
                acc = g;
            },
            None => {
                return Err(String::from_str("number too large to fit in target type"));
            },
        }
        i += 1;
    }
    Ok(acc)
}

/// The numbers of the first line.
#[verifier::rlimit(40)]
fn parse_dims(line: &str) -> (dims: Result<Vec<usize>, String>)
    ensures
        match dims {
            Ok(d) => dims_of(line@, 0) == Ok::<Seq<usize>, Seq<char>>(d@),
            Err(e) => dims_of(line@, 0) == Err::<Seq<usize>, Seq<char>>(e@),
        },
{
    let n = line.unicode_len();
    let mut out: Vec<usize> = Vec::with_capacity(2);
    let mut from: usize = 0;
    assert(with_front(out@, dims_of(line@, 0)) == dims_of(line@, 0)) by {
        match dims_of(line@, 0) {
            Ok(more) => {
                assert(out@ + more =~= more);
            },
            Err(_) => {},
        }
    }
    loop
        invariant
            from <= n,
            n == line@.len(),
            with_front(out@, dims_of(line@, from as int)) == dims_of(line@, 0),
        decreases n - from,
    {
        let i = find_char(line, ' ', from);
        let ghost front = out@;
        match parse_int(line, from, i) {
            Ok(v) => {
                out.push(v);
                if i >= n {
                    assert(front + seq![v] =~= out@);
                    return Ok(out);
                }
                proof {
                    match dims_of(line@, i + 1) {
                        Ok(more) => {
                            assert(front + (seq![v] + more) =~= out@ + more);
                        },
                        Err(_) => {},
                    }
                }
                from = i + 1;
            },
            Err(why) => {
                let mut text = join3(
                    "Could not parse int from [",
                    line.substring_char(from, i),
                    "]: ",
                );
                text.append(why.as_str());
                return Err(text);
            },
        }
    }
}

/// The numbers as a list in square brackets.
fn show_dims(d: &Vec<usize>) -> (s: String)
    ensures
        s@ == "["@ + items_text(d@, d@.len()) + "]"@,
{
    let mut s = String::from_str("[");
    let mut k: usize = 0;
    assert(s@ =~= "["@ + items_text(d@, 0));
    while k < d.len()
        invariant
            k <= d@.len(),
            s@ == "["@ + items_text(d@, k as nat),
        decreases d@.len() - k,
    {
        if k > 0 {
            s.append(", ");
        }
        s.append(decimal(d[k]).as_str());
        assert(s@ =~= "["@ + items_text(d@, (k + 1) as nat));
        k += 1;
    }
    s.append("]");
    s
}

/// What carrying a line out does to the position.
fn replay_line(pos: &mut CompoundPosition, line: &str) -> (done: Result<(), String>)
    requires
        old(pos).wf(),
    ensures
        final(pos).wf(),
        match done {
            Ok(_) => line_effect(old(pos)@, line@) == Ok::<Seq<SimpleView>, Seq<char>>(final(pos)@),
            Err(e) => line_effect(old(pos)@, line@) == Err::<Seq<SimpleView>, Seq<char>>(e@),
        },
{
    if trim(line).unicode_len() == 0 {
        return Ok(());
    }
    if line.unicode_len() > 0 && line.get_char(0) == '#' {
        return Ok(());
    }
    let command = match parse_command::<CPosMove, CompoundPosition>(line, &*pos) {
        Ok(c) => c,
        Err(e) => {
            return Err(e);
        },
    };
    match command {
        Command::MakeMove(m) => {
            if pos.is_legal_move(m) {
                pos.make_move(m);
                Ok(())
            } else {
                let mut text = String::from_str("Not a legal move: ");
                text.append(m.render().as_str());
                Err(text)
            }
        },
        Command::UndoMove(m) => {
            if pos.can_undo(m) {
                pos.undo_move(m);
                Ok(())
            } else {
                let mut text = String::from_str("Not a move to take back: ");
                text.append(m.render().as_str());
                Err(text)
            }
        },
        _ => Ok(()),
    }
}

/// Reads a saved position: the first line holds width and height of each
/// part, the lines after it are carried out as commands. Blank lines and
/// lines that begin with `#` are passed over.
#[verifier::rlimit(40)]
pub fn parse_position(lines: &Vec<String>) -> (pos: Result<CompoundPosition, String>)
    ensures
        match pos {
            Ok(p) => p.wf() && position_of(texts(lines@)) == Ok::<Seq<SimpleView>, Seq<char>>(p@),
            Err(e) => position_of(texts(lines@)) == Err::<Seq<SimpleView>, Seq<char>>(e@),
        },
{
    let ghost all = texts(lines@);
    if lines.len() == 0 {
        return Err(String::from_str("No lines found"));
    }
    assert(all[0] == lines@[0]@);
    let size_spec_parts = match parse_dims(lines[0].as_str()) {
        Ok(d) => d,
        Err(e) => {
            return Err(e);
        },
    };
    let ghost d = size_spec_parts@;
    if size_spec_parts.len() < 2 || size_spec_parts.len() % 2 != 0 {
        let mut text = String::from_str(
            "Expected an even number of dimensions and at least 2, found: ",
        );
        text.append(show_dims(&size_spec_parts).as_str());
        return Err(text);
    }
    let count = size_spec_parts.len() / 2;
    let mut parts: Vec<SimplePosition> = Vec::with_capacity(count);
    let mut k: usize = 0;
    while k < count
        invariant
            k <= count,
            count == d.len() / 2,
            d == size_spec_parts@,
            d.len() % 2 == 0,
            all == texts(lines@),
            lines@.len() > 0,
            dims_of(all[0], 0) == Ok::<Seq<usize>, Seq<char>>(d),
            d.len() >= 2,
            bad_pair(d, k as nat) is None,
            parts@.len() == k,
            forall|i: int| 0 <= i < k ==> (#[trigger] parts@[i]).wf(),
            forall|i: int|
                0 <= i < k ==> (#[trigger] parts@[i])@ == blank(
                    d[2 * i] as nat,
                    d[2 * i + 1] as nat,
                    true,
                ),
        decreases count - k,
    {
        let width = size_spec_parts[2 * k];
        let height = size_spec_parts[2 * k + 1];
        if !SimplePosition::fits(width, height) {
            let mut text = join3(
                "Cannot make a board of width ",
                decimal(width).as_str(),
                " and height ",
            );
            text.append(decimal(height).as_str());
            proof {
                lemma_bad_pair(d, (k + 1) as nat, count as nat);
            }
            return Err(text);
        }
        parts.push(SimplePosition::new_game(width, height));
        k += 1;
    }
    let ghost given = parts@;
    let mut pos = CompoundPosition::new_game(parts);
    assert(pos@ =~= start_of(d));
    let mut i: usize = 1;
    while i < lines.len()
        invariant
            1 <= i <= lines@.len(),
            all == texts(lines@),
            pos.wf(),
            replay_from(pos@, all, i as int) == position_of(all),
        decreases lines@.len() - i,
    {
        assert(all[i as int] == lines@[i as int]@);
        match replay_line(&mut pos, lines[i].as_str()) {
            Ok(_) => {},
            Err(e) => {
                return Err(e);
            },
        }
        i += 1;
    }
    Ok(pos)
}

/// Where one of the first `n` pairs is no size of a board, so is one of the
/// first `m`, for `m` not less than `n`, and it is the same one.
proof fn lemma_bad_pair(d: Seq<usize>, n: nat, m: nat)
    requires
        n <= m,
        bad_pair(d, n) is Some,
    ensures
        bad_pair(d, m) == bad_pair(d, n),
    decreases m - n,
{
    if n < m {
        lemma_bad_pair(d, n, (m - 1) as nat);
    }
}

/// The lines of the help, for a move written as `how` says.
pub open spec fn help_text<M: Copy, P: CLIPosition<M>>() -> Seq<Seq<char>> {
    seq![
        "Available commands:"@,
        P::help_line("make"@),
        "u "@ + P::help_line("undo"@),
        "nv - calculate Nimstring value of current position"@,
        "eval - evaluate the current position"@,
        "help - print this help message"@,
        "quit/exit - exit program"@,
    ]
}

/// The lines of the help.
pub fn help_lines<M: Copy, P: CLIPosition<M>>(pos: &P) -> (lines: Vec<String>)
    ensures
        texts(lines@) == help_text::<M, P>(),
{
    let mut lines: Vec<String> = Vec::new();
    lines.push(String::from_str("Available commands:"));
    lines.push(pos.move_cmd_help("make"));
    let mut undo = String::from_str("u ");
    undo.append(pos.move_cmd_help("undo").as_str());
    lines.push(undo);
    lines.push(String::from_str("nv - calculate Nimstring value of current position"));
    lines.push(String::from_str("eval - evaluate the current position"));
    lines.push(String::from_str("help - print this help message"));
    lines.push(String::from_str("quit/exit - exit program"));
    assert(texts(lines@) =~= help_text::<M, P>());
    lines
}

} // verus!
