//! A forward-only cursor over the input, which keeps the line and the column
//! of the byte that it stands at.

use vstd::prelude::*;
use crate::error::{Error, ErrorCode};

verus! {

/// The line of the byte at `offset`: one more than the number of line feeds
/// before it.
pub open spec fn line_at(input: Seq<u8>, offset: int) -> nat
    decreases offset,
{
    if offset <= 0 {
        1
    } else if input[offset - 1] == 10 {
        line_at(input, offset - 1) + 1
    } else {
        line_at(input, offset - 1)
    }
}

/// The number of bytes between the start of its line and the byte at `offset`.
pub open spec fn column_at(input: Seq<u8>, offset: int) -> nat
    decreases offset,
{
    if offset <= 0 {
        0
    } else if input[offset - 1] == 10 {
        0
    } else {
        column_at(input, offset - 1) + 1
    }
}

/// A position cannot be farther than the bytes before it.
pub proof fn lemma_position_bounds(input: Seq<u8>, offset: int)
    requires
        0 <= offset,
    ensures
        1 <= line_at(input, offset) <= offset + 1,
        column_at(input, offset) <= offset,
    decreases offset,
{
    if offset > 0 {
        lemma_position_bounds(input, offset - 1);
    }
}

/// The syntax error with the given code at the byte at `offset`: its line, and
/// its column counted from one.
pub open spec fn syntax_at(code: ErrorCode, input: Seq<u8>, offset: int) -> Error {
    Error::Syntax(
        code,
        line_at(input, offset) as usize,
        (column_at(input, offset) + 1) as usize,
    )
}

/// A cursor over a byte buffer.
pub struct Lexer<'a> {
    input: &'a [u8],
    offset: usize,
    line: usize,
    column: usize,
}

impl<'a> Lexer<'a> {
    /// The whole input.
    pub closed spec fn input(&self) -> Seq<u8> {
        self.input@
    }

    /// The number of bytes consumed.
    pub closed spec fn offset(&self) -> int {
        self.offset as int
    }

    /// The cursor is inside its input and knows its line and column.
    pub closed spec fn wf(&self) -> bool {
        &&& self.input@.len() < usize::MAX
        &&& self.offset <= self.input@.len()
        &&& self.line == line_at(self.input@, self.offset as int)
        &&& self.column == column_at(self.input@, self.offset as int)
    }

    /// A cursor at the start of `input`.
    pub fn new(input: &'a [u8]) -> (lexer: Self)
        requires
            input@.len() < usize::MAX,
        ensures
            lexer.wf(),
            lexer.input() == input@,
            lexer.offset() == 0,
    {
        Lexer { input: input, offset: 0, line: 1, column: 0 }
    }

    /// A well-formed cursor is inside its input, which is shorter than the
    /// greatest `usize`.
    pub proof fn lemma_inside(&self)
        requires
            self.wf(),
        ensures
            0 <= self.offset() <= self.input().len() < usize::MAX,
    {
    }

    /// Whether all input is consumed.
    pub fn at_end(&self) -> (ended: bool)
        requires
            self.wf(),
        ensures
            ended == (self.offset() >= self.input().len()),
    {
        self.offset >= self.input.len()
    }

    /// The byte that the cursor stands at, without consuming it.
    pub fn peek(&self) -> (next: Option<u8>)
        requires
            self.wf(),
        ensures
            next == if self.offset() < self.input().len() {
                Some(self.input()[self.offset()])
            } else {
                None
            },
    {
        if self.offset < self.input.len() {
            Some(self.input[self.offset])
        } else {
            None
        }
    }

    /// Consumes the byte that the cursor stands at.
    pub fn bump(&mut self)
        requires
            old(self).wf(),
            old(self).offset() < old(self).input().len(),
        ensures
            final(self).wf(),
            final(self).input() == old(self).input(),
            final(self).offset() == old(self).offset() + 1,
    {
        proof {
            lemma_position_bounds(self.input@, self.offset as int);
        }
        if self.input[self.offset] == 10 {
            self.line += 1;
            self.column = 0;
        } else {
            self.column += 1;
        }
        self.offset += 1;
    }

    /// The number of bytes consumed.
    pub fn consumed(&self) -> (count: usize)
        requires
            self.wf(),
        ensures
            count == self.offset(),
    {
        self.offset
    }

    /// The bytes from the offset `from` up to the cursor.
    pub fn span(&self, from: usize) -> (bytes: &'a [u8])
        requires
            self.wf(),
            from <= self.offset(),
        ensures
            bytes@ == self.input().subrange(from as int, self.offset()),
    {
        vstd::slice::slice_subrange(self.input, from, self.offset)
    }

    /// The line of the byte that the cursor stands at, and its column counted
    /// from one.
    pub fn position(&self) -> (position: (usize, usize))
        requires
            self.wf(),
        ensures
            position.0 == line_at(self.input(), self.offset()),
            position.1 == column_at(self.input(), self.offset()) + 1,
    {
        proof {
            lemma_position_bounds(self.input@, self.offset as int);
        }
        (self.line, self.column + 1)
    }

    /// The syntax error with the given code at the byte that the cursor stands
    /// at.
    pub fn error(&self, code: ErrorCode) -> (error: Error)
        requires
            self.wf(),
        ensures
            error == syntax_at(code, self.input(), self.offset()),
    {
        let position = self.position();
        Error::Syntax(code, position.0, position.1)
    }
}

} // verus!
