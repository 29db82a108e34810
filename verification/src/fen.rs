//! Parsing of the textual position notation into the raw construction
//! path of the board: each field of the notation is parsed by its own
//! function, writing plain fields that `Board::init` then derives the
//! cached state from.

use vstd::prelude::*;
use vstd::string::StrSliceExecFns;
use vstd::string::StringExecFns;
use crate::board::Board;
use crate::state::GameState;

verus! {

/// What went wrong while parsing a position string.
#[derive(Clone, Copy, PartialEq, Eq, Structural, Debug)]
pub enum FenError {
    IncorrectLength,
    PiecePart,
    SidePart,
    CastlingPart,
    EnpassantPart,
    HalfMovePart,
    FullMovePart,
}

/// Whitespace stripped from the ends of a position string.
pub open spec fn is_ws(c: char) -> bool {
    c == ' ' || c == '\t' || c == '\n' || c == '\r'
}

/// An em dash is read as the plain dash of an empty field.
pub open spec fn normalize_char(c: char) -> char {
    if c == '\u{2014}' {
        '-'
    } else {
        c
    }
}

/// The string with every em dash replaced by a plain dash.
pub open spec fn normalized(s: Seq<char>) -> Seq<char> {
    s.map_values(|c: char| normalize_char(c))
}

/// The string without leading whitespace.
pub open spec fn trim_front(s: Seq<char>) -> Seq<char>
    decreases s.len(),
{
    if s.len() > 0 && is_ws(s[0]) {
        trim_front(s.drop_first())
    } else {
        s
    }
}

/// The string without trailing whitespace.
pub open spec fn trim_back(s: Seq<char>) -> Seq<char>
    decreases s.len(),
{
    if s.len() > 0 && is_ws(s.last()) {
        trim_back(s.drop_last())
    } else {
        s
    }
}

/// The string without leading or trailing whitespace.
pub open spec fn trimmed(s: Seq<char>) -> Seq<char> {
    trim_back(trim_front(s))
}

/// The parts of a string split on a separator: one more part than there
/// are separators, in order, with the separators dropped.
pub open spec fn split_on(s: Seq<char>, sep: char) -> Seq<Seq<char>>
    decreases s.len(),
{
    if s.len() == 0 {
        seq![Seq::<char>::empty()]
    } else if s[0] == sep {
        seq![Seq::<char>::empty()] + split_on(s.drop_first(), sep)
    } else {
        let r = split_on(s.drop_first(), sep);
        r.update(0, seq![s[0]] + r[0])
    }
}

/// A split always yields at least one part.
pub proof fn lemma_split_on_len(s: Seq<char>, sep: char)
    ensures
        split_on(s, sep).len() >= 1,
    decreases s.len(),
{
    if s.len() > 0 {
        lemma_split_on_len(s.drop_first(), sep);
    }
}

/// The characters of a string, in order.
pub fn chars_of(s: &str) -> (v: Vec<char>)
    ensures
        v@ == s@,
{
    let n = s.unicode_len();
    let mut v: Vec<char> = Vec::new();
    let mut i: usize = 0;
    while i < n
        invariant
            i <= n,
            n == s@.len(),
            v@.len() == i,
            forall|j: int| 0 <= j < i ==> v@[j] == s@[j],
        decreases n - i,
    {
        v.push(s.get_char(i));
        i += 1;
    }
    proof {
        assert(v@ =~= s@);
    }
    v
}

/// Relies on `String`'s `FromIterator` over `char`: collecting yields a
/// string holding exactly the characters of the vector, in order.
#[verifier::external_body]
fn string_from_chars(v: &Vec<char>) -> (s: String)
    ensures
        s@ == v@,
{
    v.iter().collect()
}

/// Split a character vector on a separator, from position `from` on.
fn split_chars_from(s: &Vec<char>, from: usize, sep: char) -> (parts: Vec<Vec<char>>)
    requires
        from <= s@.len(),
    ensures
        parts@.map_values(|p: Vec<char>| p@) == split_on(s@.skip(from as int), sep),
        parts@.len() >= 1,
    decreases s@.len() - from,
{
    if from == s.len() {
        let mut parts: Vec<Vec<char>> = Vec::new();
        parts.push(Vec::new());
        proof {
            assert(s@.skip(from as int) =~= Seq::<char>::empty());
            assert(parts@.map_values(|p: Vec<char>| p@) =~= split_on(s@.skip(from as int), sep));
        }
        parts
    } else if s[from] == sep {
        let mut parts = split_chars_from(s, from + 1, sep);
        parts.insert(0, Vec::new());
        proof {
            assert(s@.skip(from as int).drop_first() =~= s@.skip(from as int + 1));
            assert(s@.skip(from as int)[0] == s@[from as int]);
            assert(parts@.map_values(|p: Vec<char>| p@) =~= split_on(s@.skip(from as int), sep));
        }
        parts
    } else {
        let mut parts = split_chars_from(s, from + 1, sep);
        let mut first = parts.remove(0);
        first.insert(0, s[from]);
        parts.insert(0, first);
        proof {
            assert(s@.skip(from as int).drop_first() =~= s@.skip(from as int + 1));
            assert(s@.skip(from as int)[0] == s@[from as int]);
            let r = split_on(s@.skip(from as int + 1), sep);
            lemma_split_on_len(s@.skip(from as int + 1), sep);
            assert(first@ =~= seq![s@[from as int]] + r[0]);
            assert(parts@.map_values(|p: Vec<char>| p@) =~= r.update(
                0,
                seq![s@[from as int]] + r[0],
            ));
            assert(split_on(s@.skip(from as int), sep) == r.update(0, seq![s@[from as int]] + r[0]));
        }
        parts
    }
}

/// Trim the ends of a string, replace em dashes by dashes, and hand the
/// characters back.
fn normalized_trimmed_chars(s: &str) -> (v: Vec<char>)
    ensures
        v@ == normalized(trimmed(s@)),
{
    let cs = chars_of(s);
    let n = cs.len();
    let mut start: usize = 0;
    proof {
        assert(s@.skip(0) =~= s@);
    }
    while start < n && (cs[start] == ' ' || cs[start] == '\t' || cs[start] == '\n' || cs[start]
        == '\r')
        invariant
            start <= n,
            n == cs@.len(),
            cs@ == s@,
            trim_front(s@) == trim_front(s@.skip(start as int)),
        decreases n - start,
    {
        proof {
            assert(s@.skip(start as int).drop_first() =~= s@.skip(start as int + 1));
        }
        start += 1;
    }
    let mut end: usize = n;
    proof {
        assert(s@.skip(start as int).len() == 0 || !is_ws(s@.skip(start as int)[0]));
        assert(trim_front(s@) =~= s@.skip(start as int));
        assert(s@.skip(start as int).subrange(0, (end - start) as int) =~= s@.subrange(
            start as int,
            end as int,
        ));
    }
    while end > start && (cs[end - 1] == ' ' || cs[end - 1] == '\t' || cs[end - 1] == '\n' || cs[end
        - 1] == '\r')
        invariant
            start <= end <= n,
            n == cs@.len(),
            cs@ == s@,
            trim_front(s@) == s@.skip(start as int),
            trim_back(trim_front(s@)) == trim_back(s@.subrange(start as int, end as int)),
        decreases end,
    {
        proof {
            assert(s@.subrange(start as int, end as int).drop_last() =~= s@.subrange(
                start as int,
                end as int - 1,
            ));
        }
        end -= 1;
    }
    proof {
        let t = s@.subrange(start as int, end as int);
        assert(t.len() == 0 || !is_ws(t.last()));
        assert(trimmed(s@) =~= t);
    }
    let mut v: Vec<char> = Vec::new();
    let mut i: usize = start;
    while i < end
        invariant
            start <= i <= end <= n,
            n == cs@.len(),
            cs@ == s@,
            v@.len() == i - start,
            forall|j: int| 0 <= j < i - start ==> v@[j] == normalize_char(s@[start + j]),
        decreases end - i,
    {
        let c = cs[i];
        if c == '\u{2014}' {
            v.push('-');
        } else {
            v.push(c);
        }
        i += 1;
    }
    proof {
        assert(v@ =~= normalized(trimmed(s@)));
    }
    v
}

/// The views of a vector of strings.
pub open spec fn string_views(v: Seq<String>) -> Seq<Seq<char>> {
    v.map_values(|p: String| p@)
}

/// The starting position in textual notation.
pub open spec fn default_fen() -> Seq<char> {
    "rnbqkbnr/pppppppp/8/8/8/8/PPPPPPPP/RNBQKBNR w KQkq - 0 1"@
}

/// Split a position string into its six fields.  The string is trimmed,
/// em dashes become dashes, and a four-field short form is padded with a
/// zero half-move clock and a move counter of one.  Any other field count
/// is rejected.
pub fn fen_split_string(fen_str: Option<&str>) -> (r: Result<Vec<String>, FenError>)
    ensures
        ({
            let base = match fen_str {
                Some(s) => s@,
                None => default_fen(),
            };
            let parts = split_on(normalized(trimmed(base)), ' ');
            &&& (r is Ok <==> (parts.len() == 6 || parts.len() == 4))
            &&& (parts.len() == 6 ==> r == Ok::<Vec<String>, FenError>(r.unwrap())
                && string_views(r.unwrap()@) == parts)
            &&& (parts.len() == 4 ==> r == Ok::<Vec<String>, FenError>(r.unwrap())
                && string_views(r.unwrap()@) == parts + seq![seq!['0'], seq!['1']])
            &&& (r is Err ==> r == Err::<Vec<String>, FenError>(FenError::IncorrectLength))
        }),
{
    let fen_str = match fen_str {
        Some(s) => s,
        None => "rnbqkbnr/pppppppp/8/8/8/8/PPPPPPPP/RNBQKBNR w KQkq - 0 1",
    };
    let v = normalized_trimmed_chars(fen_str);
    proof {
        assert(v@.skip(0) =~= v@);
    }
    let parts_c = split_chars_from(&v, 0, ' ');
    let ghost parts = split_on(normalized(trimmed(fen_str@)), ' ');
    let mut fen_parts: Vec<String> = Vec::new();
    let mut i: usize = 0;
    while i < parts_c.len()
        invariant
            i <= parts_c@.len(),
            parts_c@.map_values(|p: Vec<char>| p@) == parts,
            fen_parts@.len() == i,
            forall|j: int| 0 <= j < i ==> fen_parts@[j]@ == parts[j],
        decreases parts_c@.len() - i,
    {
        fen_parts.push(string_from_chars(&parts_c[i]));
        i += 1;
    }
    if fen_parts.len() == 4 {
        proof {
            reveal_strlit("0");
            reveal_strlit("1");
        }
        fen_parts.push(String::from_str("0"));
        fen_parts.push(String::from_str("1"));
        proof {
            assert(parts.len() == 4);
            assert(forall|j: int| 0 <= j < 4 ==> string_views(fen_parts@)[j] == parts[j]);
            assert(string_views(fen_parts@)[4] == seq!['0']);
            assert(string_views(fen_parts@)[5] == seq!['1']);
            assert(string_views(fen_parts@) =~= parts + seq![seq!['0'], seq!['1']]);
        }
        return Ok(fen_parts);
    }
    if fen_parts.len() != 6 {
        return Err(FenError::IncorrectLength);
    }
    proof {
        assert(string_views(fen_parts@) =~= parts);
    }
    Ok(fen_parts)
}

/// Parse the side-to-move field: `w` or `b`.
pub fn fen_parse_colour(board: &mut Board, part: &str) -> (r: Result<(), FenError>)
    ensures
        r is Ok <==> (part@ == seq!['w'] || part@ == seq!['b']),
        part@ == seq!['w'] ==> *final(board) == (Board {
            game_state: (GameState { active_color: 0, ..old(board).game_state }),
            ..*old(board)
        }),
        part@ == seq!['b'] ==> *final(board) == (Board {
            game_state: (GameState { active_color: 1, ..old(board).game_state }),
            ..*old(board)
        }),
        r is Err ==> *final(board) == *old(board) && r == Err::<(), FenError>(FenError::SidePart),
{
    let v = chars_of(part);
    if v.len() == 1 && v[0] == 'w' {
        proof {
            assert(part@ =~= seq!['w']);
        }
        board.game_state.active_color = 0;
        Ok(())
    } else if v.len() == 1 && v[0] == 'b' {
        proof {
            assert(part@ =~= seq!['b']);
        }
        board.game_state.active_color = 1;
        Ok(())
    } else {
        proof {
            assert(part@ != seq!['w'] && part@ != seq!['b']) by {
                if part@ == seq!['w'] || part@ == seq!['b'] {
                    assert(v@.len() == 1);
                }
            }
        }
        Err(FenError::SidePart)
    }
}

/// The castling-rights bit a notation character grants.
pub open spec fn castling_bit_of(c: char) -> u8 {
    if c == 'K' {
        1
    } else if c == 'Q' {
        2
    } else if c == 'k' {
        4
    } else if c == 'q' {
        8
    } else {
        0
    }
}

/// A character the castling field accepts.
pub open spec fn castling_char_ok(c: char) -> bool {
    c == 'K' || c == 'Q' || c == 'k' || c == 'q' || c == '-'
}

/// The castling rights a whole field grants.
pub open spec fn castling_bits(s: Seq<char>) -> u8
    decreases s.len(),
{
    if s.len() == 0 {
        0
    } else {
        castling_bits(s.drop_last()) | castling_bit_of(s.last())
    }
}

/// Parse the castling-rights field: one to four characters granting
/// rights, `-` granting none.
pub fn fen_parse_castling_rights(board: &mut Board, part: &str) -> (r: Result<(), FenError>)
    ensures
        r is Ok <==> (1 <= part@.len() <= 4 && forall|i: int|
            0 <= i < part@.len() ==> castling_char_ok(#[trigger] part@[i])),
        r is Ok ==> *final(board) == (Board {
            game_state: (GameState {
                castling: old(board).game_state.castling | castling_bits(part@),
                ..old(board).game_state
            }),
            ..*old(board)
        }),
        r is Err ==> *final(board) == *old(board) && r == Err::<(), FenError>(
            FenError::CastlingPart,
        ),
{
    let v = chars_of(part);
    if v.len() < 1 || v.len() > 4 {
        return Err(FenError::CastlingPart);
    }
    let mut bits: u8 = 0;
    let mut i: usize = 0;
    while i < v.len()
        invariant
            i <= v@.len(),
            v@ == part@,
            bits == castling_bits(part@.take(i as int)),
            forall|j: int| 0 <= j < i ==> castling_char_ok(#[trigger] part@[j]),
        decreases v@.len() - i,
    {
        let c = v[i];
        let b: u8 = match c {
            'K' => 1,
            'Q' => 2,
            'k' => 4,
            'q' => 8,
            '-' => 0,
            _ => { return Err(FenError::CastlingPart) },
        };
        proof {
            assert(part@.take(i as int + 1).drop_last() =~= part@.take(i as int));
        }
        bits = bits | b;
        i += 1;
    }
    proof {
        assert(part@.take(part@.len() as int) =~= part@);
    }
    board.game_state.castling = board.game_state.castling | bits;
    Ok(())
}

/// The file index a file letter names.
pub open spec fn file_of_char(c: char) -> int {
    c as int - 'a' as int
}

/// A file letter of the en-passant field.
pub open spec fn is_file_char(c: char) -> bool {
    'a' <= c && c <= 'h'
}

/// Parse the en-passant field: `-` for no target, or a square such as
/// `e3` whose rank must be the third or the sixth; the target is stored
/// as its file.
pub fn fen_parse_enpassant(board: &mut Board, part: &str) -> (r: Result<(), FenError>)
    ensures
        r is Ok <==> (part@ == seq!['-'] || (part@.len() == 2 && is_file_char(part@[0]) && (
        part@[1] == '3' || part@[1] == '6'))),
        part@ == seq!['-'] ==> *final(board) == *old(board),
        (part@.len() == 2 && is_file_char(part@[0]) && (part@[1] == '3' || part@[1] == '6'))
            ==> *final(board) == (Board {
            game_state: (GameState {
                enpassant: Some(file_of_char(part@[0]) as u8),
                ..old(board).game_state
            }),
            ..*old(board)
        }),
        r is Err ==> *final(board) == *old(board) && r == Err::<(), FenError>(
            FenError::EnpassantPart,
        ),
{
    let v = chars_of(part);
    if v.len() == 1 {
        if v[0] == '-' {
            proof {
                assert(part@ =~= seq!['-']);
            }
            return Ok(());
        }
        proof {
            assert(part@ != seq!['-']) by {
                if part@ == seq!['-'] {
                    assert(v@[0] == '-');
                }
            }
        }
        return Err(FenError::EnpassantPart);
    }
    if v.len() == 2 {
        let fc = v[0];
        let rc = v[1];
        if 'a' <= fc && fc <= 'h' && (rc == '3' || rc == '6') {
            let file: u8 = (fc as u8) - ('a' as u8);
            proof {
                assert(file_of_char(part@[0]) == file as int);
                assert(file < 8);
            }
            board.game_state.set_enpassant(file);
            return Ok(());
        }
        return Err(FenError::EnpassantPart);
    }
    Err(FenError::EnpassantPart)
}

/// A decimal digit.
pub open spec fn is_digit(c: char) -> bool {
    '0' <= c && c <= '9'
}

/// The numeric value of a digit.
pub open spec fn digit_val(c: char) -> int {
    c as int - '0' as int
}

/// The digits of a number field, past an optional leading plus sign.
pub open spec fn dec_body(s: Seq<char>) -> Seq<char> {
    if s.len() > 0 && s[0] == '+' {
        s.drop_first()
    } else {
        s
    }
}

/// A well-formed decimal number field.
pub open spec fn is_dec(s: Seq<char>) -> bool {
    dec_body(s).len() >= 1 && forall|i: int|
        0 <= i < dec_body(s).len() ==> is_digit(#[trigger] dec_body(s)[i])
}

/// The value of a digit string.
pub open spec fn dec_val(s: Seq<char>) -> int
    decreases s.len(),
{
    if s.len() == 0 {
        0
    } else {
        dec_val(s.drop_last()) * 10 + digit_val(s.last())
    }
}

/// A digit string's value only grows as digits are appended.
proof fn lemma_dec_val_mono(s: Seq<char>, i: int)
    requires
        0 <= i <= s.len(),
        forall|j: int| 0 <= j < s.len() ==> is_digit(#[trigger] s[j]),
    ensures
        dec_val(s.take(i)) <= dec_val(s),
        dec_val(s) >= 0,
    decreases s.len() - i,
{
    if i < s.len() {
        lemma_dec_val_mono(s, i + 1);
        assert(s.take(i + 1).drop_last() =~= s.take(i));
        assert(dec_val(s.take(i)) >= 0) by {
            lemma_dec_val_nonneg(s.take(i));
        }
    } else {
        assert(s.take(i) =~= s);
        lemma_dec_val_nonneg(s);
    }
}

/// A digit string's value is never negative.
proof fn lemma_dec_val_nonneg(s: Seq<char>)
    requires
        forall|j: int| 0 <= j < s.len() ==> is_digit(#[trigger] s[j]),
    ensures
        dec_val(s) >= 0,
    decreases s.len(),
{
    if s.len() > 0 {
        lemma_dec_val_nonneg(s.drop_last());
    }
}

/// Parse a decimal field no larger than `cap`; `None` exactly when the
/// field is malformed or its value is above the cap.
fn parse_decimal_bounded(v: &Vec<char>, cap: u64) -> (r: Option<u64>)
    requires
        cap <= 0xFFFF,
    ensures
        r is Some <==> (is_dec(v@) && dec_val(dec_body(v@)) <= cap),
        r is Some ==> r.unwrap() == dec_val(dec_body(v@)),
{
    let start: usize = if v.len() > 0 && v[0] == '+' {
        1
    } else {
        0
    };
    let ghost body = dec_body(v@);
    proof {
        assert(body =~= v@.skip(start as int));
    }
    if v.len() == start {
        return None;
    }
    let mut acc: u64 = 0;
    let mut i: usize = start;
    while i < v.len()
        invariant
            start <= i <= v@.len(),
            body == dec_body(v@),
            body == v@.skip(start as int),
            acc == dec_val(body.take(i - start as int)),
            acc <= cap,
            cap <= 0xFFFF,
            forall|j: int| 0 <= j < i - start ==> is_digit(#[trigger] body[j]),
        decreases v@.len() - i,
    {
        let c = v[i];
        if !('0' <= c && c <= '9') {
            proof {
                assert(!is_digit(body[i - start as int]));
            }
            return None;
        }
        let d: u64 = ((c as u32) - ('0' as u32)) as u64;
        proof {
            assert(body.take(i - start as int + 1).drop_last() =~= body.take(i - start as int));
            assert(d == digit_val(body[i - start as int]));
        }
        acc = acc * 10 + d;
        i += 1;
        if acc > cap {
            proof {
                if is_dec(v@) {
                    lemma_dec_val_mono(body, i - start as int);
                }
            }
            return None;
        }
    }
    proof {
        assert(body.take(body.len() as int) =~= body);
    }
    Some(acc)
}

/// A piece letter of the piece-placement field.
pub open spec fn is_piece_char(c: char) -> bool {
    c == 'k' || c == 'q' || c == 'r' || c == 'b' || c == 'n' || c == 'p' || c == 'K' || c == 'Q'
        || c == 'R' || c == 'B' || c == 'N' || c == 'P'
}

/// The side a piece letter belongs to: upper case white, lower case
/// black.
pub open spec fn piece_side(c: char) -> int {
    if c == 'K' || c == 'Q' || c == 'R' || c == 'B' || c == 'N' || c == 'P' {
        0
    } else {
        1
    }
}

/// The piece kind a piece letter names.
pub open spec fn piece_kind(c: char) -> int {
    if c == 'k' || c == 'K' {
        0
    } else if c == 'q' || c == 'Q' {
        1
    } else if c == 'r' || c == 'R' {
        2
    } else if c == 'b' || c == 'B' {
        3
    } else if c == 'n' || c == 'N' {
        4
    } else {
        5
    }
}

/// A skip count of the piece-placement field.
pub open spec fn is_digit18(c: char) -> bool {
    '1' <= c && c <= '8'
}

/// How many files a character of the piece-placement field advances.
pub open spec fn fen_char_width(c: char) -> int {
    if is_piece_char(c) {
        1
    } else if is_digit18(c) {
        digit_val(c)
    } else {
        0
    }
}

/// A character the piece-placement field accepts.
pub open spec fn fen_char_ok(c: char) -> bool {
    is_piece_char(c) || is_digit18(c) || c == '/'
}

/// How many rank separators stand before position `j`.
pub open spec fn groups_before(s: Seq<char>, j: int) -> int
    decreases j,
{
    if j <= 0 {
        0
    } else {
        groups_before(s, j - 1) + (if s[j - 1] == '/' {
            1int
        } else {
            0int
        })
    }
}

/// The file the cursor stands on at position `j`: the widths of the
/// characters since the last rank separator.
pub open spec fn width_at(s: Seq<char>, j: int) -> int
    decreases j,
{
    if j <= 0 {
        0
    } else if s[j - 1] == '/' {
        0
    } else {
        width_at(s, j - 1) + fen_char_width(s[j - 1])
    }
}

/// A well-formed piece-placement field: eight ranks separated by seven
/// slashes, each rank exactly eight files wide, never wider.
pub open spec fn valid_fen_pieces(s: Seq<char>) -> bool {
    &&& forall|j: int| 0 <= j < s.len() ==> fen_char_ok(#[trigger] s[j])
    &&& groups_before(s, s.len() as int) == 7
    &&& forall|j: int| 0 <= j < s.len() && #[trigger] s[j] == '/' ==> width_at(s, j) == 8
    &&& width_at(s, s.len() as int) == 8
    &&& forall|j: int| 0 <= j <= s.len() ==> #[trigger] width_at(s, j) <= 8
}

/// The character at position `j` places a piece of `side` and `kind` on
/// square `sq`: ranks are written top first, files left first.
pub open spec fn fen_places(s: Seq<char>, j: int, side: int, kind: int, sq: int) -> bool {
    &&& 0 <= j < s.len()
    &&& is_piece_char(s[j])
    &&& side == piece_side(s[j])
    &&& kind == piece_kind(s[j])
    &&& sq == (7 - groups_before(s, j)) * 8 + width_at(s, j)
}

/// Separator counts are never negative.
proof fn lemma_groups_nonneg(s: Seq<char>, j: int)
    ensures
        groups_before(s, j) >= 0,
    decreases j,
{
    if j > 0 {
        lemma_groups_nonneg(s, j - 1);
    }
}

/// Separator counts only grow along the string.
proof fn lemma_groups_mono(s: Seq<char>, j1: int, j2: int)
    requires
        0 <= j1 <= j2,
    ensures
        groups_before(s, j1) <= groups_before(s, j2),
        groups_before(s, j1) >= 0,
    decreases j2 - j1,
{
    lemma_groups_nonneg(s, j1);
    if j1 < j2 {
        lemma_groups_mono(s, j1, j2 - 1);
    }
}

/// Parse the piece-placement field into the piece and occupancy bit-sets.
/// Each piece letter sets the bit of its square in its side's bit-set of
/// its kind and in its side's occupancy set; on any flaw the board is
/// left untouched.
pub fn fen_parse_pieces(board: &mut Board, part: &str) -> (r: Result<(), FenError>)
    requires
        old(board).bb_pieces@.len() == 12,
        old(board).bb_sides@.len() == 2,
    ensures
        r is Ok <==> valid_fen_pieces(part@),
        r is Err ==> *final(board) == *old(board) && r == Err::<(), FenError>(FenError::PiecePart),
        r is Ok ==> {
            &&& final(board).bb_pieces@.len() == 12
            &&& final(board).bb_sides@.len() == 2
            &&& forall|side: int, kind: int, sq: int|
                0 <= side < 2 && 0 <= kind < 6 && 0 <= sq < 64 ==> (#[trigger] crate::bits::bb_has(
                    final(board).bb_pieces@[crate::board::piece_slot(side, kind)],
                    sq,
                ) == (crate::bits::bb_has(
                    old(board).bb_pieces@[crate::board::piece_slot(side, kind)],
                    sq,
                ) || exists|j: int|
                    0 <= j < part@.len() && #[trigger] fen_places(part@, j, side, kind, sq)))
            &&& forall|side: int, sq: int|
                0 <= side < 2 && 0 <= sq < 64 ==> (#[trigger] crate::bits::bb_has(
                    final(board).bb_sides@[side],
                    sq,
                ) == (crate::bits::bb_has(old(board).bb_sides@[side], sq) || exists|j: int, kind: int|
                    0 <= j < part@.len() && #[trigger] fen_places(part@, j, side, kind, sq)))
            &&& final(board).piece_list@ == old(board).piece_list@
            &&& final(board).game_state == old(board).game_state
            &&& final(board).history == old(board).history
            &&& final(board).zobrist_hashmap == old(board).zobrist_hashmap
        },
{
    let v = chars_of(part);
    let n = v.len();
    let ghost s = part@;
    let mut groups: u32 = 0;
    let mut width: u32 = 0;
    let mut i: usize = 0;
    while i < n
        invariant
            i <= n,
            n == s.len(),
            v@ == s,
            s == part@,
            groups == groups_before(s, i as int),
            width == width_at(s, i as int),
            groups <= 7,
            width <= 8,
            forall|j: int| 0 <= j < i ==> fen_char_ok(#[trigger] s[j]),
            forall|j: int| 0 <= j < i && #[trigger] s[j] == '/' ==> width_at(s, j) == 8,
            forall|j: int| 0 <= j <= i ==> #[trigger] width_at(s, j) <= 8,
        decreases n - i,
    {
        let c = v[i];
        if c == '/' {
            if width != 8 {
                proof {
                    if valid_fen_pieces(s) {
                        assert(width_at(s, i as int) == 8);
                        assert(false);
                    }
                }
                return Err(FenError::PiecePart);
            }
            if groups == 7 {
                proof {
                    if valid_fen_pieces(s) {
                        lemma_groups_mono(s, i as int + 1, s.len() as int);
                    }
                }
                return Err(FenError::PiecePart);
            }
            groups += 1;
            width = 0;
        } else if '1' <= c && c <= '9' {
            if c == '9' {
                proof {
                    if valid_fen_pieces(s) {
                        assert(fen_char_ok(s[i as int]));
                        assert(false);
                    }
                }
                return Err(FenError::PiecePart);
            }
            let d: u32 = (c as u32) - ('0' as u32);
            if width + d > 8 {
                proof {
                    if valid_fen_pieces(s) {
                        assert(width_at(s, i as int + 1) == width + d);
                        assert(width_at(s, i as int + 1) <= 8);
                        assert(false);
                    }
                }
                return Err(FenError::PiecePart);
            }
            width += d;
        } else if c == 'k' || c == 'q' || c == 'r' || c == 'b' || c == 'n' || c == 'p' || c == 'K'
            || c == 'Q' || c == 'R' || c == 'B' || c == 'N' || c == 'P' {
            if width + 1 > 8 {
                proof {
                    if valid_fen_pieces(s) {
                        assert(width_at(s, i as int + 1) == width + 1);
                        assert(width_at(s, i as int + 1) <= 8);
                        assert(false);
                    }
                }
                return Err(FenError::PiecePart);
            }
            width += 1;
        } else {
            return Err(FenError::PiecePart);
        }
        i += 1;
    }
    if width != 8 || groups != 7 {
        return Err(FenError::PiecePart);
    }
    let ghost orig_pieces = board.bb_pieces@;
    let ghost orig_sides = board.bb_sides@;
    let mut groups: u32 = 0;
    let mut width: u32 = 0;
    let mut i: usize = 0;
    while i < n
        invariant
            i <= n,
            n == s.len(),
            v@ == s,
            s == part@,
            valid_fen_pieces(s),
            groups == groups_before(s, i as int),
            width == width_at(s, i as int),
            groups <= 7,
            width <= 8,
            board.bb_pieces@.len() == 12,
            board.bb_sides@.len() == 2,
            orig_pieces.len() == 12,
            orig_sides.len() == 2,
            forall|side: int, kind: int, sq: int|
                0 <= side < 2 && 0 <= kind < 6 && 0 <= sq < 64 ==> (#[trigger] crate::bits::bb_has(
                    board.bb_pieces@[crate::board::piece_slot(side, kind)],
                    sq,
                ) == (crate::bits::bb_has(orig_pieces[crate::board::piece_slot(side, kind)], sq)
                    || exists|j: int| 0 <= j < i && #[trigger] fen_places(s, j, side, kind, sq))),
            forall|side: int, sq: int|
                0 <= side < 2 && 0 <= sq < 64 ==> (#[trigger] crate::bits::bb_has(
                    board.bb_sides@[side],
                    sq,
                ) == (crate::bits::bb_has(orig_sides[side], sq) || exists|j: int, kind: int|
                    0 <= j < i && #[trigger] fen_places(s, j, side, kind, sq))),
            board.piece_list@ == old(board).piece_list@,
            board.game_state == old(board).game_state,
            board.history == old(board).history,
            board.zobrist_hashmap == old(board).zobrist_hashmap,
        decreases n - i,
    {
        let c = v[i];
        if c == '/' {
            proof {
                lemma_groups_mono(s, i as int + 1, s.len() as int);
            }
            groups += 1;
            width = 0;
        } else if '1' <= c && c <= '8' {
            let d: u32 = (c as u32) - ('0' as u32);
            proof {
                assert(width_at(s, i as int + 1) <= 8);
            }
            width += d;
        } else {
            let (side, kind): (usize, usize) = if c == 'K' {
                (0, 0)
            } else if c == 'Q' {
                (0, 1)
            } else if c == 'R' {
                (0, 2)
            } else if c == 'B' {
                (0, 3)
            } else if c == 'N' {
                (0, 4)
            } else if c == 'P' {
                (0, 5)
            } else if c == 'k' {
                (1, 0)
            } else if c == 'q' {
                (1, 1)
            } else if c == 'r' {
                (1, 2)
            } else if c == 'b' {
                (1, 3)
            } else if c == 'n' {
                (1, 4)
            } else {
                (1, 5)
            };
            proof {
                assert(width_at(s, i as int + 1) <= 8);
                assert(width <= 7);
            }
            let sq: u32 = (7 - groups) * 8 + width;
            let slot = side * 6 + kind;
            let mask: u64 = 1u64 << (sq as u64);
            let ghost p1 = board.bb_pieces@;
            let ghost s1 = board.bb_sides@;
            let old_bb = board.bb_pieces[slot];
            board.bb_pieces[slot] = old_bb | mask;
            let old_side = board.bb_sides[side];
            board.bb_sides[side] = old_side | mask;
            width += 1;
            proof {
                crate::bits::lemma_bb_single(sq as u64, sq as int);
                assert(fen_places(s, i as int, side as int, kind as int, sq as int));
                assert forall|side2: int, kind2: int, sq2: int|
                    0 <= side2 < 2 && 0 <= kind2 < 6 && 0 <= sq2 < 64 implies (
                #[trigger] crate::bits::bb_has(
                    board.bb_pieces@[crate::board::piece_slot(side2, kind2)],
                    sq2,
                ) == (crate::bits::bb_has(orig_pieces[crate::board::piece_slot(side2, kind2)], sq2)
                    || exists|j: int|
                    0 <= j < i + 1 && #[trigger] fen_places(s, j, side2, kind2, sq2))) by {
                    let slot2 = crate::board::piece_slot(side2, kind2);
                    crate::bits::lemma_bb_or(p1[slot2], mask, sq2);
                    crate::bits::lemma_bb_single(sq as u64, sq2);
                    if slot2 == slot as int {
                        if sq2 == sq as int {
                            assert(side2 == side as int && kind2 == kind as int) by (nonlinear_arith)
                                requires
                                    slot2 == side2 * 6 + kind2,
                                    slot2 == side as int * 6 + kind as int,
                                    0 <= side2 < 2,
                                    0 <= kind2 < 6,
                                    0 <= side < 2,
                                    0 <= kind < 6;
                            assert(crate::bits::bb_has(board.bb_pieces@[slot2], sq2));
                            assert(fen_places(s, i as int, side2, kind2, sq2));
                        } else {
                            assert(crate::bits::bb_has(board.bb_pieces@[slot2], sq2)
                                == crate::bits::bb_has(p1[slot2], sq2));
                            assert forall|j: int|
                                0 <= j < i + 1 && #[trigger] fen_places(s, j, side2, kind2, sq2)
                                implies 0 <= j < i && fen_places(s, j, side2, kind2, sq2) by {
                                if j == i {
                                    assert(sq2 == sq as int);
                                }
                            }
                        }
                    } else {
                        assert(board.bb_pieces@[slot2] == p1[slot2]);
                        assert forall|j: int|
                            0 <= j < i + 1 && #[trigger] fen_places(s, j, side2, kind2, sq2)
                            implies 0 <= j < i && fen_places(s, j, side2, kind2, sq2) by {
                            if j == i {
                                assert(side2 == piece_side(s[i as int]) && kind2 == piece_kind(
                                    s[i as int],
                                ));
                                assert(slot2 == slot as int);
                            }
                        }
                    }
                }
                assert forall|side2: int, sq2: int| 0 <= side2 < 2 && 0 <= sq2 < 64 implies (
                #[trigger] crate::bits::bb_has(board.bb_sides@[side2], sq2) == (
                crate::bits::bb_has(orig_sides[side2], sq2) || exists|j: int, kind2: int|
                    0 <= j < i + 1 && #[trigger] fen_places(s, j, side2, kind2, sq2))) by {
                    crate::bits::lemma_bb_or(s1[side2], mask, sq2);
                    crate::bits::lemma_bb_single(sq as u64, sq2);
                    if side2 == side as int {
                        if sq2 == sq as int {
                            assert(crate::bits::bb_has(board.bb_sides@[side2], sq2));
                            assert(fen_places(s, i as int, side2, kind as int, sq2));
                        } else {
                            assert(crate::bits::bb_has(board.bb_sides@[side2], sq2)
                                == crate::bits::bb_has(s1[side2], sq2));
                            assert forall|j: int, kind2: int|
                                0 <= j < i + 1 && #[trigger] fen_places(s, j, side2, kind2, sq2)
                                implies 0 <= j < i && fen_places(s, j, side2, kind2, sq2) by {
                                if j == i {
                                    assert(sq2 == sq as int);
                                }
                            }
                        }
                    } else {
                        assert(board.bb_sides@[side2] == s1[side2]);
                        assert forall|j: int, kind2: int|
                            0 <= j < i + 1 && #[trigger] fen_places(s, j, side2, kind2, sq2)
                            implies 0 <= j < i && fen_places(s, j, side2, kind2, sq2) by {
                            if j == i {
                                assert(side2 == piece_side(s[i as int]));
                            }
                        }
                    }
                }
            }
        }
        i += 1;
    }
    Ok(())
}

/// Parse the half-move clock: a number no larger than the fifty-move
/// bound.
pub fn fen_parse_half_move_clock(board: &mut Board, part: &str) -> (r: Result<(), FenError>)
    ensures
        r is Ok <==> (is_dec(part@) && dec_val(dec_body(part@)) <= crate::types::FIFTY_MOVE_RULE),
        r is Ok ==> *final(board) == (Board {
            game_state: (GameState {
                half_move_clock: dec_val(dec_body(part@)) as u8,
                ..old(board).game_state
            }),
            ..*old(board)
        }),
        r is Err ==> *final(board) == *old(board) && r == Err::<(), FenError>(
            FenError::HalfMovePart,
        ),
{
    let v = chars_of(part);
    match parse_decimal_bounded(&v, 255) {
        Some(x) => {
            if x <= crate::types::FIFTY_MOVE_RULE as u64 {
                board.game_state.half_move_clock = x as u8;
                Ok(())
            } else {
                Err(FenError::HalfMovePart)
            }
        },
        None => Err(FenError::HalfMovePart),
    }
}

/// Parse the full-move counter: a number no larger than the supported
/// game length.
pub fn fen_parse_full_move_counter(board: &mut Board, part: &str) -> (r: Result<(), FenError>)
    ensures
        r is Ok <==> (is_dec(part@) && dec_val(dec_body(part@)) <= crate::types::MAX_GAME_MOVES),
        r is Ok ==> *final(board) == (Board {
            game_state: (GameState {
                fullmove_counter: dec_val(dec_body(part@)) as u16,
                ..old(board).game_state
            }),
            ..*old(board)
        }),
        r is Err ==> *final(board) == *old(board) && r == Err::<(), FenError>(
            FenError::FullMovePart,
        ),
{
    let v = chars_of(part);
    match parse_decimal_bounded(&v, 0xFFFF) {
        Some(x) => {
            if x <= crate::types::MAX_GAME_MOVES {
                board.game_state.fullmove_counter = x as u16;
                Ok(())
            } else {
                Err(FenError::FullMovePart)
            }
        },
        None => Err(FenError::FullMovePart),
    }
}

/// A fresh vector with the same contents.
fn copy_vec<T: Copy>(v: &Vec<T>) -> (r: Vec<T>)
    ensures
        r@ == v@,
{
    let mut r: Vec<T> = Vec::new();
    let mut i: usize = 0;
    while i < v.len()
        invariant
            i <= v@.len(),
            r@ == v@.take(i as int),
        decreases v@.len() - i,
    {
        r.push(v[i]);
        proof {
            assert(v@.take(i as int + 1) =~= v@.take(i as int).push(v@[i as int]));
        }
        i += 1;
    }
    proof {
        assert(v@.take(v@.len() as int) =~= v@);
    }
    r
}

/// A side-to-move field the parser accepts.
pub open spec fn colour_ok(p: Seq<char>) -> bool {
    p == seq!['w'] || p == seq!['b']
}

/// A castling field the parser accepts.
pub open spec fn castling_ok(p: Seq<char>) -> bool {
    1 <= p.len() <= 4 && forall|i: int| 0 <= i < p.len() ==> castling_char_ok(#[trigger] p[i])
}

/// An en-passant field the parser accepts.
pub open spec fn enpassant_ok(p: Seq<char>) -> bool {
    p == seq!['-'] || (p.len() == 2 && is_file_char(p[0]) && (p[1] == '3' || p[1] == '6'))
}

/// A half-move-clock field the parser accepts.
pub open spec fn half_move_ok(p: Seq<char>) -> bool {
    is_dec(p) && dec_val(dec_body(p)) <= crate::types::FIFTY_MOVE_RULE
}

/// A full-move-counter field the parser accepts.
pub open spec fn full_move_ok(p: Seq<char>) -> bool {
    is_dec(p) && dec_val(dec_body(p)) <= crate::types::MAX_GAME_MOVES
}

/// The six fields a position string resolves to: a four-field short form
/// is padded with a zero clock and a counter of one.
pub open spec fn fen_fields(base: Seq<char>) -> Seq<Seq<char>> {
    let parts = split_on(normalized(trimmed(base)), ' ');
    if parts.len() == 4 {
        parts + seq![seq!['0'], seq!['1']]
    } else {
        parts
    }
}

/// The string a setup call parses: the given one, or the starting
/// position when none is given.
pub open spec fn fen_base(fen: Option<&str>) -> Seq<char> {
    match fen {
        Some(s) => s@,
        None => default_fen(),
    }
}

/// The error of the first stage that rejects the position string: field
/// count first, then the six fields in parsing order.
pub open spec fn first_fen_error(base: Seq<char>) -> FenError {
    let parts = split_on(normalized(trimmed(base)), ' ');
    let fields = fen_fields(base);
    if !(parts.len() == 6 || parts.len() == 4) {
        FenError::IncorrectLength
    } else if !valid_fen_pieces(fields[0]) {
        FenError::PiecePart
    } else if !colour_ok(fields[1]) {
        FenError::SidePart
    } else if !castling_ok(fields[2]) {
        FenError::CastlingPart
    } else if !enpassant_ok(fields[3]) {
        FenError::EnpassantPart
    } else if !half_move_ok(fields[4]) {
        FenError::HalfMovePart
    } else {
        FenError::FullMovePart
    }
}

/// A position string every stage of the parser accepts.
pub open spec fn fen_ok(base: Seq<char>) -> bool {
    let parts = split_on(normalized(trimmed(base)), ' ');
    let fields = fen_fields(base);
    &&& (parts.len() == 6 || parts.len() == 4)
    &&& valid_fen_pieces(fields[0])
    &&& colour_ok(fields[1])
    &&& castling_ok(fields[2])
    &&& enpassant_ok(fields[3])
    &&& half_move_ok(fields[4])
    &&& full_move_ok(fields[5])
}

impl Board {
    /// Set the board up from a position string, or from the starting
    /// position when none is given: split the string into its six
    /// fields and run each field's parser over the raw fields, leaving
    /// the board untouched when any stage rejects.  The cached state is
    /// derived afterwards with `init`.
    #[verifier::rlimit(100)]
    pub fn fen_setup(&mut self, fen: Option<&str>) -> (r: Result<(), FenError>)
        requires
            old(self).bb_pieces@.len() == 12,
            old(self).bb_sides@.len() == 2,
        ensures
            r is Ok <==> fen_ok(fen_base(fen)),
            r is Err ==> r == Err::<(), FenError>(first_fen_error(fen_base(fen))),
            r is Err ==> {
                &&& final(self).bb_pieces@ == old(self).bb_pieces@
                &&& final(self).bb_sides@ == old(self).bb_sides@
                &&& final(self).game_state == old(self).game_state
                &&& final(self).piece_list@ == old(self).piece_list@
                &&& final(self).history == old(self).history
                &&& final(self).zobrist_hashmap == old(self).zobrist_hashmap
            },
            r is Ok ==> {
                &&& final(self).bb_pieces@.len() == 12
                &&& final(self).bb_sides@.len() == 2
                &&& forall|side: int, kind: int, sq: int|
                    0 <= side < 2 && 0 <= kind < 6 && 0 <= sq < 64 ==> (
                    #[trigger] crate::bits::bb_has(
                        final(self).bb_pieces@[crate::board::piece_slot(side, kind)],
                        sq,
                    ) == (crate::bits::bb_has(
                        old(self).bb_pieces@[crate::board::piece_slot(side, kind)],
                        sq,
                    ) || exists|j: int|
                        0 <= j < fen_fields(fen_base(fen))[0].len() && #[trigger] fen_places(
                            fen_fields(fen_base(fen))[0],
                            j,
                            side,
                            kind,
                            sq,
                        )))
                &&& forall|side: int, sq: int|
                    0 <= side < 2 && 0 <= sq < 64 ==> (#[trigger] crate::bits::bb_has(
                        final(self).bb_sides@[side],
                        sq,
                    ) == (crate::bits::bb_has(old(self).bb_sides@[side], sq) || exists|
                        j: int,
                        kind: int,
                    |
                        0 <= j < fen_fields(fen_base(fen))[0].len() && #[trigger] fen_places(
                            fen_fields(fen_base(fen))[0],
                            j,
                            side,
                            kind,
                            sq,
                        )))
                &&& final(self).game_state.active_color == (if fen_fields(fen_base(fen))[1]
                    == seq!['w'] {
                    0u8
                } else {
                    1u8
                })
                &&& final(self).game_state.castling == old(self).game_state.castling
                    | castling_bits(fen_fields(fen_base(fen))[2])
                &&& final(self).game_state.enpassant == (if fen_fields(fen_base(fen))[3]
                    == seq!['-'] {
                    old(self).game_state.enpassant
                } else {
                    Some(file_of_char(fen_fields(fen_base(fen))[3][0]) as u8)
                })
                &&& final(self).game_state.half_move_clock == dec_val(
                    dec_body(fen_fields(fen_base(fen))[4]),
                )
                &&& final(self).game_state.fullmove_counter == dec_val(
                    dec_body(fen_fields(fen_base(fen))[5]),
                )
                &&& final(self).game_state.zobrist_key == old(self).game_state.zobrist_key
                &&& final(self).piece_list@ == old(self).piece_list@
                &&& final(self).history == old(self).history
                &&& final(self).zobrist_hashmap == old(self).zobrist_hashmap
            },
    {
        let ghost base = fen_base(fen);
        let fen_parts = match fen_split_string(fen) {
            Ok(p) => p,
            Err(e) => {
                return Err(e);
            },
        };
        let ghost fields = fen_fields(base);
        proof {
            assert(fields.len() == 6);
            assert(string_views(fen_parts@) == fields);
            assert forall|k: int| 0 <= k < 6 implies fen_parts@[k]@ == fields[k] by {
                assert(string_views(fen_parts@)[k] == fen_parts@[k]@);
            }
        }
        let saved_pieces = copy_vec(&self.bb_pieces);
        let saved_sides = copy_vec(&self.bb_sides);
        let saved_state = self.game_state;
        if let Err(e) = fen_parse_pieces(self, fen_parts[0].as_str()) {
            self.bb_pieces = saved_pieces;
            self.bb_sides = saved_sides;
            self.game_state = saved_state;
            return Err(e);
        }
        if let Err(e) = fen_parse_colour(self, fen_parts[1].as_str()) {
            self.bb_pieces = saved_pieces;
            self.bb_sides = saved_sides;
            self.game_state = saved_state;
            return Err(e);
        }
        if let Err(e) = fen_parse_castling_rights(self, fen_parts[2].as_str()) {
            self.bb_pieces = saved_pieces;
            self.bb_sides = saved_sides;
            self.game_state = saved_state;
            return Err(e);
        }
        if let Err(e) = fen_parse_enpassant(self, fen_parts[3].as_str()) {
            self.bb_pieces = saved_pieces;
            self.bb_sides = saved_sides;
            self.game_state = saved_state;
            return Err(e);
        }
        if let Err(e) = fen_parse_half_move_clock(self, fen_parts[4].as_str()) {
            self.bb_pieces = saved_pieces;
            self.bb_sides = saved_sides;
            self.game_state = saved_state;
            return Err(e);
        }
        if let Err(e) = fen_parse_full_move_counter(self, fen_parts[5].as_str()) {
            self.bb_pieces = saved_pieces;
            self.bb_sides = saved_sides;
            self.game_state = saved_state;
            return Err(e);
        }
        proof {
            lemma_dec_val_nonneg(dec_body(fields[4]));
            lemma_dec_val_nonneg(dec_body(fields[5]));
        }
        Ok(())
    }
}

} // verus!
