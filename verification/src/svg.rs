//! Lexing of SVG attribute text (numbers, identifiers, symbols).
//!
//! The lexer works on bytes and never interprets a number lexeme itself; it
//! hands back the exact span of each token so that a caller can convert the
//! lexeme with whatever numeric type it needs.

use vstd::prelude::*;
use vstd::slice::slice_index_get;
use vstd::slice::slice_subrange;

verus! {

/// The ASCII space byte, the only whitespace the lexer skips.
pub const B_SPACE: u8 = 32;

/// ASCII byte values used by the lexer.
pub const B_MINUS: u8 = 45;

pub const B_PLUS: u8 = 43;

pub const B_DOT: u8 = 46;

pub const B_UNDERSCORE: u8 = 95;

pub const B_LOWER_E: u8 = 101;

pub const B_UPPER_E: u8 = 69;

pub const B_ZERO: u8 = 48;

pub const B_NINE: u8 = 57;

pub const B_LOWER_A: u8 = 97;

pub const B_LOWER_Z: u8 = 122;

pub const B_UPPER_A: u8 = 65;

pub const B_UPPER_Z: u8 = 90;

/// An ASCII decimal digit.
pub open spec fn is_digit(b: u8) -> bool {
    B_ZERO <= b && b <= B_NINE
}

/// A byte that may continue the mantissa of a number: a digit or a decimal
/// point (multiple points are tolerated here; converting the lexeme rejects
/// them).
pub open spec fn is_num_byte(b: u8) -> bool {
    is_digit(b) || b == B_DOT
}

/// A byte that may continue an identifier.
pub open spec fn is_ident_byte(b: u8) -> bool {
    b == B_UNDERSCORE || is_digit(b) || (B_LOWER_A <= b && b <= B_LOWER_Z) || (B_UPPER_A <= b && b <= B_UPPER_Z)
}

/// First index at or after `i` whose byte fails `p` (or the end of `s`).
pub open spec fn run_end(s: Seq<u8>, i: int, p: spec_fn(u8) -> bool) -> int
    decreases s.len() - i,
{
    if i < s.len() && p(s[i]) {
        run_end(s, i + 1, p)
    } else {
        i
    }
}

proof fn lemma_run_end_bounds(s: Seq<u8>, i: int, p: spec_fn(u8) -> bool)
    requires
        0 <= i <= s.len(),
    ensures
        i <= run_end(s, i, p) <= s.len(),
    decreases s.len() - i,
{
    if i < s.len() && p(s[i]) {
        lemma_run_end_bounds(s, i + 1, p);
    }
}

/// Length of the number lexeme at the start of `s`: an optional minus sign,
/// a run of digits and points, and an optional exponent part (`e` or `E`,
/// an optional sign, a run of digits).  The exponent marker and sign are
/// consumed even when no digits follow them.
pub open spec fn spec_scan_num(s: Seq<u8>) -> int
    recommends
        s.len() > 0,
{
    let i1: int = if s[0] == B_MINUS { 1 } else { 0 };
    let i2 = run_end(s, i1, |b: u8| is_num_byte(b));
    if i2 < s.len() && (s[i2] == B_LOWER_E || s[i2] == B_UPPER_E) {
        let i3 = i2 + 1;
        let i4: int = if i3 < s.len() && (s[i3] == B_MINUS || s[i3] == B_PLUS) {
            i3 + 1
        } else {
            i3
        };
        run_end(s, i4, |b: u8| is_digit(b))
    } else {
        i2
    }
}

/// Length of the identifier lexeme at the start of `s`: the first byte is
/// taken unconditionally (the caller has already seen a letter there), then
/// a run of identifier bytes.
pub open spec fn spec_scan_ident(s: Seq<u8>) -> int
    recommends
        s.len() >= 1,
{
    run_end(s, 1, |b: u8| is_ident_byte(b))
}

/// Scan the number lexeme at the start of `s`.
pub fn scan_num(s: &[u8]) -> (r: usize)
    requires
        s@.len() > 0,
    ensures
        r as int == spec_scan_num(s@),
        r <= s@.len(),
{
    let mut i: usize = 0;
    let b = *slice_index_get(s, 0);
    if b == B_MINUS {
        i = 1;
    }
    let ghost i1: int = i as int;
    proof {
        lemma_run_end_bounds(s@, i1, |b: u8| is_num_byte(b));
    }
    while i < s.len()
        invariant
            i1 <= i as int <= s@.len(),
            run_end(s@, i1, |b: u8| is_num_byte(b)) == run_end(
                s@,
                i as int,
                |b: u8| is_num_byte(b),
            ),
        ensures
            i1 <= i as int <= s@.len(),
            i as int == run_end(s@, i1, |b: u8| is_num_byte(b)),
        decreases s@.len() - i as int,
    {
        let b = *slice_index_get(s, i);
        if !((B_ZERO <= b && b <= B_NINE) || b == B_DOT) {
            break ;
        }
        i += 1;
    }
    let ghost i2: int = i as int;
    if i < s.len() {
        let b = *slice_index_get(s, i);
        if b == B_LOWER_E || b == B_UPPER_E {
            i += 1;
            if i < s.len() {
                let b2 = *slice_index_get(s, i);
                if b2 == B_MINUS || b2 == B_PLUS {
                    i += 1;
                }
            }
            let ghost i4: int = i as int;
            proof {
                lemma_run_end_bounds(s@, i4, |b: u8| is_digit(b));
            }
            while i < s.len()
                invariant
                    i4 <= i as int <= s@.len(),
                    run_end(s@, i4, |b: u8| is_digit(b)) == run_end(
                        s@,
                        i as int,
                        |b: u8| is_digit(b),
                    ),
                ensures
                    i as int == run_end(s@, i4, |b: u8| is_digit(b)),
                decreases s@.len() - i as int,
            {
                let b3 = *slice_index_get(s, i);
                if !(B_ZERO <= b3 && b3 <= B_NINE) {
                    break ;
                }
                i += 1;
            }
        }
    }
    i
}

/// Scan the identifier lexeme at the start of `s`.
pub fn scan_ident(s: &[u8]) -> (r: usize)
    requires
        s@.len() >= 1,
    ensures
        r as int == spec_scan_ident(s@),
        1 <= r <= s@.len(),
{
    let mut i: usize = 1;
    proof {
        lemma_run_end_bounds(s@, 1, |b: u8| is_ident_byte(b));
    }
    while i < s.len()
        invariant
            1 <= i as int <= s@.len(),
            run_end(s@, 1, |b: u8| is_ident_byte(b)) == run_end(
                s@,
                i as int,
                |b: u8| is_ident_byte(b),
            ),
        ensures
            1 <= i as int <= s@.len(),
            i as int == run_end(s@, 1, |b: u8| is_ident_byte(b)),
        decreases s@.len() - i as int,
    {
        let b = *slice_index_get(s, i);
        if !(b == B_UNDERSCORE || (B_ZERO <= b && b <= B_NINE) || (B_LOWER_A <= b && b <= B_LOWER_Z) || (B_UPPER_A <= b && b
            <= B_UPPER_Z)) {
            break ;
        }
        i += 1;
    }
    i
}

/// One token of attribute text.  `Ident` and `Number` carry the half-open
/// byte span of their lexeme in the input; `Symbol` carries the byte itself.
#[derive(Clone, Copy, Debug, PartialEq, Eq, Structural)]
pub enum Token {
    Ident(usize, usize),
    Number(usize, usize),
    Symbol(u8),
}

/// A byte that starts a number token.
pub open spec fn is_num_start(b: u8) -> bool {
    is_digit(b) || b == B_MINUS || b == B_PLUS || b == B_DOT
}

/// A byte that starts an identifier token.  The second range deliberately
/// runs from `A` up to lowercase `z`, so a few punctuation bytes between the
/// two letter ranges also open an identifier.
pub open spec fn is_ident_start(b: u8) -> bool {
    (B_LOWER_A <= b && b <= B_LOWER_Z) || (B_UPPER_A <= b && b <= B_LOWER_Z)
}

/// Index of the first non-space byte at or after `i`.
pub open spec fn spec_skip_ws(s: Seq<u8>, i: int) -> int {
    run_end(s, i, |b: u8| b == B_SPACE)
}

/// The token starting at `pos` (after skipping spaces) and the position just
/// past it.  A sign byte whose number lexeme turns out empty yields an empty
/// `Number` span and one byte of progress, so lexing always advances.
pub open spec fn spec_next(s: Seq<u8>, pos: int) -> (Option<Token>, int)
    recommends
        0 <= pos <= s.len(),
{
    let p = spec_skip_ws(s, pos);
    if p >= s.len() {
        (None, p)
    } else {
        let b = s[p];
        if is_num_start(b) {
            let n = spec_scan_num(s.subrange(p, s.len() as int));
            if n == 0 {
                (Some(Token::Number(p as usize, p as usize)), p + 1)
            } else {
                (Some(Token::Number(p as usize, (p + n) as usize)), p + n)
            }
        } else if is_ident_start(b) {
            let n = spec_scan_ident(s.subrange(p, s.len() as int));
            (Some(Token::Ident(p as usize, (p + n) as usize)), p + n)
        } else {
            (Some(Token::Symbol(b)), p + 1)
        }
    }
}

/// A lexer over one attribute string, held as bytes with a cursor.
pub struct Lexer {
    s: Vec<u8>,
    pos: usize,
}

impl Lexer {
    /// The cursor never passes the end of the input.
    pub open spec fn wf(&self) -> bool {
        0 <= self.cursor() <= self.bytes().len()
    }

    /// The input bytes.
    pub closed spec fn bytes(&self) -> Seq<u8> {
        self.s@
    }

    /// The cursor position.
    pub closed spec fn cursor(&self) -> int {
        self.pos as int
    }

    pub fn new(s: Vec<u8>) -> (r: Lexer)
        ensures
            r.wf(),
            r.bytes() == s@,
            r.cursor() == 0,
    {
        Lexer { s, pos: 0 }
    }

    /// The byte under the cursor, if any.
    pub fn peek(&self) -> (r: Option<u8>)
        requires
            self.wf(),
        ensures
            self.cursor() < self.bytes().len() ==> r == Some(self.bytes()[self.cursor()]),
            self.cursor() >= self.bytes().len() ==> r is None,
    {
        if self.pos < self.s.len() {
            Some(self.s[self.pos])
        } else {
            None
        }
    }

    /// Advance the cursor past any spaces.
    pub fn skip_whitespace(&mut self)
        requires
            old(self).wf(),
        ensures
            final(self).wf(),
            final(self).bytes() == old(self).bytes(),
            final(self).cursor() == spec_skip_ws(old(self).bytes(), old(self).cursor()),
            old(self).cursor() <= final(self).cursor(),
    {
        let ghost s0: Seq<u8> = self.s@;
        let ghost p0: int = self.pos as int;
        proof {
            lemma_run_end_bounds(s0, p0, |b: u8| b == B_SPACE);
        }
        while self.pos < self.s.len()
            invariant
                self.s@ == s0,
                p0 <= self.pos as int <= s0.len(),
                spec_skip_ws(s0, p0) == spec_skip_ws(s0, self.pos as int),
            ensures
                self.s@ == s0,
                self.pos as int == spec_skip_ws(s0, p0),
            decreases s0.len() - self.pos as int,
        {
            if self.s[self.pos] != B_SPACE {
                break ;
            }
            self.pos += 1;
        }
    }

    /// Produce the next token, or `None` at the end of the input.
    pub fn next(&mut self) -> (r: Option<Token>)
        requires
            old(self).wf(),
        ensures
            final(self).wf(),
            final(self).bytes() == old(self).bytes(),
            r == spec_next(old(self).bytes(), old(self).cursor()).0,
            final(self).cursor() == spec_next(old(self).bytes(), old(self).cursor()).1,
            r is Some ==> final(self).cursor() > old(self).cursor(),
            r is None ==> final(self).cursor() >= old(self).cursor(),
    {
        self.skip_whitespace();
        if self.pos >= self.s.len() {
            return None;
        }
        let b = self.s[self.pos];
        if (B_ZERO <= b && b <= B_NINE) || b == B_MINUS || b == B_PLUS || b == B_DOT {
            let rest = slice_subrange(self.s.as_slice(), self.pos, self.s.len());
            let n = scan_num(rest);
            if n == 0 {
                let t = Token::Number(self.pos, self.pos);
                self.pos += 1;
                return Some(t);
            }
            let t = Token::Number(self.pos, self.pos + n);
            self.pos += n;
            return Some(t);
        }
        if (B_LOWER_A <= b && b <= B_LOWER_Z) || (B_UPPER_A <= b && b <= B_LOWER_Z) {
            let rest = slice_subrange(self.s.as_slice(), self.pos, self.s.len());
            let n = scan_ident(rest);
            let t = Token::Ident(self.pos, self.pos + n);
            self.pos += n;
            return Some(t);
        }
        let t = Token::Symbol(b);
        self.pos += 1;
        Some(t)
    }
}

} // verus!
