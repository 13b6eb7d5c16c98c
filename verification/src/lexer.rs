use vstd::prelude::*;
use crate::parser::{Error, Span, Token};

verus! {

/// The kinds of raw token that the text of a program is cut into.
#[derive(Clone, Copy, PartialEq, Eq, Structural, Debug)]
pub enum RawToken {
    /// Blanks other than line breaks.
    Whitespace,
    /// Line breaks.
    Newline,
    /// A name, or a single character of syntax.
    Identifier,
    /// A number, in digits.
    Number,
    /// The opening quote of a string.
    StringStart,
    /// A character that begins no token.
    Error,
}

/// What the layout makes of a raw token.
#[derive(Clone, Copy, PartialEq, Eq, Structural, Debug)]
pub enum Step {
    /// The raw token is used up and gives nothing.
    Skip,
    /// The raw token is used up and ends the line.
    LineEnd,
    /// The raw token is used up and is a name.
    Identifier,
    /// The raw token is used up and is a number.
    Number,
    /// The raw token is used up and is in error.
    TokenError,
    /// The raw token is used up and a string follows.
    String,
    /// A block begins before the raw token, which stays.
    BlockStart,
    /// A block ends before the raw token, which stays.
    BlockEnd,
    /// The raw token, which stays, is indented as no block around it.
    IndentationError,
    /// A line begins before the raw token, which stays.
    LineStart,
}

/// How far into the layout of a program the reading has come.
#[derive(Clone, PartialEq, Eq, Debug)]
pub struct Indentation {
    /// Whether a line has begun and not ended.
    pub line_started: bool,
    /// The indentations of the blocks that are open, outermost first.
    pub indent_stack: Vec<usize>,
    /// The indentation of the line that comes next.
    pub next_indent: usize,
}

/// Mathematical content of an [`Indentation`].
pub struct IndentationView {
    pub line_started: bool,
    pub indent_stack: Seq<usize>,
    pub next_indent: usize,
}

impl View for Indentation {
    type V = IndentationView;

    open spec fn view(&self) -> IndentationView {
        IndentationView {
            line_started: self.line_started,
            indent_stack: self.indent_stack@,
            next_indent: self.next_indent,
        }
    }
}

/// The indentation of the innermost open block: zero when none is open.
pub open spec fn innermost(stack: Seq<usize>) -> usize {
    if stack.len() == 0 {
        0
    } else {
        stack.last()
    }
}

/// What the layout makes of a raw token of `length` bytes, and the layout
/// after it. Inside a line, tokens are handed on and a line break ends the
/// line. Before a line, blanks set the indentation; the first other token
/// opens a block if it is indented more than the innermost block, closes one
/// if it is indented less, and else begins the line.
pub open spec fn stepped(layout: IndentationView, raw: RawToken, length: usize) -> (IndentationView, Step) {
    match raw {
        RawToken::Newline => (
            IndentationView { line_started: false, indent_stack: layout.indent_stack, next_indent: 0 },
            if layout.line_started {
                Step::LineEnd
            } else {
                Step::Skip
            },
        ),
        RawToken::Whitespace => (
            IndentationView {
                next_indent: if layout.line_started {
                    layout.next_indent
                } else {
                    length
                },
                ..layout
            },
            Step::Skip,
        ),
        _ => {
            if layout.line_started {
                (
                    layout,
                    match raw {
                        RawToken::Identifier => Step::Identifier,
                        RawToken::Number => Step::Number,
                        RawToken::StringStart => Step::String,
                        _ => Step::TokenError,
                    },
                )
            } else if layout.next_indent > innermost(layout.indent_stack) {
                (
                    IndentationView { indent_stack: layout.indent_stack.push(layout.next_indent), ..layout },
                    Step::BlockStart,
                )
            } else if layout.next_indent < innermost(layout.indent_stack) {
                (
                    IndentationView { indent_stack: layout.indent_stack.drop_last(), ..layout },
                    if layout.next_indent > innermost(layout.indent_stack.drop_last()) {
                        Step::IndentationError
                    } else {
                        Step::BlockEnd
                    },
                )
            } else {
                (IndentationView { line_started: true, ..layout }, Step::LineStart)
            }
        },
    }
}

impl Indentation {
    /// The layout at the start of a program.
    pub fn new() -> (r: Indentation)
        ensures
            r@ == (IndentationView { line_started: false, indent_stack: Seq::empty(), next_indent: 0 }),
    {
        Indentation { line_started: false, indent_stack: Vec::new(), next_indent: 0 }
    }

    /// Takes the next raw token, of `length` bytes, and says what it gives.
    pub fn step(&mut self, raw: RawToken, length: usize) -> (r: Step)
        ensures
            (final(self)@, r) == stepped(old(self)@, raw, length),
    {
        match raw {
            RawToken::Newline => {
                self.next_indent = 0;
                if self.line_started {
                    self.line_started = false;
                    Step::LineEnd
                } else {
                    Step::Skip
                }
            },
            RawToken::Whitespace => {
                if !self.line_started {
                    self.next_indent = length;
                }
                Step::Skip
            },
            _ => {
                if self.line_started {
                    match raw {
                        RawToken::Identifier => Step::Identifier,
                        RawToken::Number => Step::Number,
                        RawToken::StringStart => Step::String,
                        _ => Step::TokenError,
                    }
                } else {
                    let last_indent = self.last_indent();
                    if self.next_indent > last_indent {
                        self.indent_stack.push(self.next_indent);
                        Step::BlockStart
                    } else if self.next_indent < last_indent {
                        self.indent_stack.pop();
                        if self.next_indent > self.last_indent() {
                            Step::IndentationError
                        } else {
                            Step::BlockEnd
                        }
                    } else {
                        self.line_started = true;
                        Step::LineStart
                    }
                }
            },
        }
    }

    /// The indentation of the innermost open block.
    fn last_indent(&self) -> (r: usize)
        ensures
            r == innermost(self@.indent_stack),
    {
        if self.indent_stack.len() == 0 {
            0
        } else {
            self.indent_stack[self.indent_stack.len() - 1]
        }
    }
}

/// The token that a step stands for, given the text and the place of the
/// raw token, and its value where it is a number; a step that only uses up
/// the raw token stands for none, and neither does the start of a string,
/// whose text is still to be read.
pub fn token_of(step: Step, text: &String, number: u64, span: Span) -> (r: Option<Token>)
    ensures
        r == match step {
            Step::Skip => None::<Token>,
            Step::String => None,
            Step::LineEnd => Some(Token::LineEnd),
            Step::Identifier => Some(Token::Identifier(*text)),
            Step::Number => Some(Token::Number(number)),
            Step::TokenError => Some(Token::Error(Error::TokenError, span)),
            Step::BlockStart => Some(Token::BlockStart),
            Step::BlockEnd => Some(Token::BlockEnd),
            Step::IndentationError => Some(Token::Error(Error::IndentationError, span)),
            Step::LineStart => Some(Token::LineStart),
        },
{
    match step {
        Step::Skip => None,
        Step::String => None,
        Step::LineEnd => Some(Token::LineEnd),
        Step::Identifier => Some(Token::Identifier(text.clone())),
        Step::Number => Some(Token::Number(number)),
        Step::TokenError => Some(Token::Error(Error::TokenError, span)),
        Step::BlockStart => Some(Token::BlockStart),
        Step::BlockEnd => Some(Token::BlockEnd),
        Step::IndentationError => Some(Token::Error(Error::IndentationError, span)),
        Step::LineStart => Some(Token::LineStart),
    }
}

/// Whether a step uses the raw token up; where it does not, the same raw
/// token is to be taken again.
pub fn uses_up(step: Step) -> (r: bool)
    ensures
        r == !(step is BlockStart || step is BlockEnd || step is IndentationError || step is LineStart),
{
    match step {
        Step::BlockStart => false,
        Step::BlockEnd => false,
        Step::IndentationError => false,
        Step::LineStart => false,
        _ => true,
    }
}

/// The pieces that the text of a string is cut into.
#[derive(Clone, Copy, PartialEq, Eq, Structural, Debug)]
pub enum LiteralString {
    /// An opening quote.
    StringStart,
    /// A closing quote.
    StringStop,
    /// Anything between quotes.
    Characters,
    /// Something that cannot stand inside a string.
    Error,
}

/// What a piece means for the string that is being read.
#[derive(Clone, Copy, PartialEq, Eq, Structural, Debug)]
pub enum Quoted {
    /// The string goes on, with this many quotes open inside it.
    Open(usize),
    /// The string ends before this piece: its text is what came before.
    Closed,
    /// The string is in error at this piece.
    Broken,
    /// The text ended before the string did.
    Unterminated,
}

/// What the next piece, if there is one, means for a string in which
/// `nesting` quotes are open: quotes nest, and the closing quote that
/// matches the opening quote of the string ends it.
pub open spec fn quoted(nesting: usize, piece: Option<LiteralString>) -> Quoted {
    match piece {
        Some(LiteralString::StringStart) => Quoted::Open((nesting + 1) as usize),
        Some(LiteralString::StringStop) => if nesting == 0 {
            Quoted::Closed
        } else {
            Quoted::Open((nesting - 1) as usize)
        },
        Some(LiteralString::Characters) => Quoted::Open(nesting),
        Some(LiteralString::Error) => Quoted::Broken,
        None => Quoted::Unterminated,
    }
}

/// Takes the next piece of a string in which `nesting` quotes are open.
pub fn quote_step(nesting: usize, piece: Option<LiteralString>) -> (r: Quoted)
    requires
        nesting < usize::MAX,
    ensures
        r == quoted(nesting, piece),
{
    match piece {
        Some(LiteralString::StringStart) => Quoted::Open(nesting + 1),
        Some(LiteralString::StringStop) => {
            if nesting == 0 {
                Quoted::Closed
            } else {
                Quoted::Open(nesting - 1)
            }
        },
        Some(LiteralString::Characters) => Quoted::Open(nesting),
        Some(LiteralString::Error) => Quoted::Broken,
        None => Quoted::Unterminated,
    }
}

} // verus!
