//! The text form of a cell: a fill character, an optional `!` for a fixed cell, and an
//! optional glyph.

use vstd::prelude::*;
use vstd::string::StringExecFns;
use vstd::utf8::{encode_utf8, is_ascii_chars, is_ascii_chars_encode_utf8};
use crate::decimal::{
    ascii_bytes,
    decimal,
    lemma_decimal_is_ascii,
    lemma_decimal_round_trip,
    parse_signed,
    parse_unsigned,
    push_decimal,
    push_signed_decimal,
    scan_signed,
    scan_unsigned,
    signed_decimal,
};
use crate::panel::Panel;
use crate::symbol::{Color, Symbol};

verus! {

/// Why a text is not a cell.
#[derive(Clone, Debug, PartialEq, Eq)]
pub enum PanelParseError {
    /// The text is empty.
    EmptyPanel,
    /// The character stands where a fill character or a glyph letter should.
    InvalidCharacter(char),
    /// The character is no colour code.
    InvalidColor(char),
    /// The count of pips or petals is no number, or too large a one.
    InvalidCountStr,
    /// A flower has at most four petals.
    TooManyPetals(usize),
    /// The text goes on after the glyph.
    TrailingBytes(Vec<u8>),
}

/// The model of a [`PanelParseError`]: the bytes are a sequence.
pub enum PanelParseFault {
    EmptyPanel,
    InvalidCharacter(char),
    InvalidColor(char),
    InvalidCountStr,
    TooManyPetals(usize),
    TrailingBytes(Seq<u8>),
}

impl View for PanelParseError {
    type V = PanelParseFault;

    open spec fn view(&self) -> PanelParseFault {
        match *self {
            PanelParseError::EmptyPanel => PanelParseFault::EmptyPanel,
            PanelParseError::InvalidCharacter(c) => PanelParseFault::InvalidCharacter(c),
            PanelParseError::InvalidColor(c) => PanelParseFault::InvalidColor(c),
            PanelParseError::InvalidCountStr => PanelParseFault::InvalidCountStr,
            PanelParseError::TooManyPetals(n) => PanelParseFault::TooManyPetals(n),
            PanelParseError::TrailingBytes(bytes) => PanelParseFault::TrailingBytes(bytes@),
        }
    }
}

/// Whether a parse gave what the grammar says.
pub open spec fn panel_parse_agrees(
    got: Result<Panel, PanelParseError>,
    want: Result<Panel, PanelParseFault>,
) -> bool {
    match (got, want) {
        (Ok(p), Ok(q)) => p == q,
        (Err(e), Err(f)) => e@ == f,
        _ => false,
    }
}

/// The glyph that a colour code and nothing after it completes.
pub open spec fn coloured_glyph(
    rest: Seq<u8>,
    glyph: spec_fn(Color) -> Symbol,
) -> Result<Symbol, PanelParseFault> {
    match Color::from_code_spec(rest[1] as char) {
        None => Err(PanelParseFault::InvalidColor(rest[1] as char)),
        Some(color) => if rest.len() > 2 {
            Err(PanelParseFault::TrailingBytes(rest.skip(2)))
        } else {
            Ok(glyph(color))
        },
    }
}

/// The glyph that the bytes after the fill part spell: nothing for `Plain`; `-` or `/`
/// and a colour for a line; `O` and a colour for a lozange; `C`, a colour and a signed
/// count for pips; `F` and a count of at most four for a flower. The letters are read in
/// either case.
pub open spec fn parse_symbol(rest: Seq<u8>) -> Result<Symbol, PanelParseFault> {
    if rest.len() == 0 {
        Ok(Symbol::Plain)
    } else if (rest[0] == 45 || rest[0] == 47) && rest.len() >= 2 {
        coloured_glyph(rest, |color: Color| Symbol::Line { diagonal: rest[0] == 47, color })
    } else if (rest[0] == 111 || rest[0] == 79) && rest.len() >= 2 {
        coloured_glyph(rest, |color: Color| Symbol::Lozange { color })
    } else if (rest[0] == 99 || rest[0] == 67) && rest.len() >= 2 {
        match Color::from_code_spec(rest[1] as char) {
            None => Err(PanelParseFault::InvalidColor(rest[1] as char)),
            Some(color) => match parse_signed(rest.skip(2), 128, 127) {
                None => Err(PanelParseFault::InvalidCountStr),
                Some(n) => Ok(Symbol::Pips { count: n as i8, color }),
            },
        }
    } else if rest[0] == 102 || rest[0] == 70 {
        match parse_unsigned(rest.skip(1), usize::MAX as nat) {
            None => Err(PanelParseFault::InvalidCountStr),
            Some(n) => if n > 4 {
                Err(PanelParseFault::TooManyPetals(n as usize))
            } else {
                Ok(Symbol::Petals { count: n as usize })
            },
        }
    } else {
        Err(PanelParseFault::InvalidCharacter(rest[0] as char))
    }
}

/// The cell that the bytes spell: `.` for unlit or `x` or `X` for lit, then `!` if the
/// cell is fixed, then the glyph.
pub open spec fn parse_panel(bytes: Seq<u8>) -> Result<Panel, PanelParseFault> {
    if bytes.len() == 0 {
        Err(PanelParseFault::EmptyPanel)
    } else if !(bytes[0] == 46 || bytes[0] == 120 || bytes[0] == 88) {
        Err(PanelParseFault::InvalidCharacter(bytes[0] as char))
    } else {
        let fixed = bytes.len() >= 2 && bytes[1] == 33;
        let rest = bytes.skip(
            if fixed {
                2
            } else {
                1
            },
        );
        match parse_symbol(rest) {
            Ok(symbol) => Ok(Panel { filled: bytes[0] != 46, fixed, symbol }),
            Err(e) => Err(e),
        }
    }
}

/// The text of a glyph.
pub open spec fn symbol_text(symbol: Symbol) -> Seq<char> {
    match symbol {
        Symbol::Plain => Seq::empty(),
        Symbol::Pips { count, color } => seq!['C', color.code_spec()] + signed_decimal(
            count as int,
        ),
        Symbol::Line { diagonal, color } => seq![
            if diagonal {
                '/'
            } else {
                '-'
            },
            color.code_spec(),
        ],
        Symbol::Lozange { color } => seq!['O', color.code_spec()],
        Symbol::Petals { count } => seq!['F'] + decimal(count as nat),
    }
}

/// The text of a cell.
pub open spec fn panel_text(panel: Panel) -> Seq<char> {
    seq![
        if panel.filled {
            'X'
        } else {
            '.'
        },
    ] + (if panel.fixed {
        seq!['!']
    } else {
        Seq::empty()
    }) + symbol_text(panel.symbol)
}

/// The text of a colour code.
fn code_text(color: Color) -> (text: &'static str)
    ensures
        text@ == seq![color.code_spec()],
{
    proof {
        reveal_strlit("B");
        reveal_strlit("Y");
        reveal_strlit("P");
        reveal_strlit("W");
        reveal_strlit("U");
        reveal_strlit("G");
    }
    let text = match color {
        Color::Black => "B",
        Color::Yellow => "Y",
        Color::Purple => "P",
        Color::White => "W",
        Color::Blue => "U",
        Color::Green => "G",
    };
    assert(text@ =~= seq![color.code_spec()]);
    text
}

/// Copies `bytes[start..]`.
fn tail_of(bytes: &[u8], start: usize) -> (v: Vec<u8>)
    requires
        start <= bytes@.len(),
    ensures
        v@ == bytes@.skip(start as int),
{
    let mut v: Vec<u8> = Vec::new();
    let mut i: usize = start;
    while i < bytes.len()
        invariant
            start <= i <= bytes@.len(),
            v@ == bytes@.subrange(start as int, i as int),
        decreases bytes@.len() - i,
    {
        v.push(bytes[i]);
        i += 1;
        proof {
            assert(v@ =~= bytes@.subrange(start as int, i as int));
        }
    }
    proof {
        assert(bytes@.subrange(start as int, i as int) =~= bytes@.skip(start as int));
    }
    v
}

/// Reads the glyph `bytes[start..]`.
fn scan_symbol(bytes: &[u8], start: usize) -> (r: Result<Symbol, PanelParseError>)
    requires
        start <= bytes@.len(),
    ensures
        match (r, parse_symbol(bytes@.skip(start as int))) {
            (Ok(s), Ok(t)) => s == t,
            (Err(e), Err(f)) => e@ == f,
            _ => false,
        },
{
    let ghost rest = bytes@.skip(start as int);
    let len = bytes.len();
    if start == len {
        return Ok(Symbol::Plain);
    }
    let c = bytes[start];
    proof {
        assert(rest[0] == c);
        if len - start >= 2 {
            assert(rest[1] == bytes@[start + 1]);
            assert(rest.skip(2) =~= bytes@.skip(start + 2));
            assert(rest.skip(2) =~= bytes@.subrange(start + 2, len as int));
        }
        assert(rest.skip(1) =~= bytes@.subrange(start + 1, len as int));
    }
    if (c == 45 || c == 47 || c == 111 || c == 79) && len - start >= 2 {
        let code = bytes[start + 1] as char;
        match Color::from_code(code) {
            None => Err(PanelParseError::InvalidColor(code)),
            Some(color) => {
                if len - start > 2 {
                    Err(PanelParseError::TrailingBytes(tail_of(bytes, start + 2)))
                } else if c == 45 || c == 47 {
                    Ok(Symbol::Line { diagonal: c == 47, color })
                } else {
                    Ok(Symbol::Lozange { color })
                }
            },
        }
    } else if (c == 99 || c == 67) && len - start >= 2 {
        let code = bytes[start + 1] as char;
        match Color::from_code(code) {
            None => Err(PanelParseError::InvalidColor(code)),
            Some(color) => match scan_signed(bytes, start + 2, len, 128, 127) {
                None => Err(PanelParseError::InvalidCountStr),
                Some(n) => Ok(Symbol::Pips { count: n as i8, color }),
            },
        }
    } else if c == 102 || c == 70 {
        match scan_unsigned(bytes, start + 1, len, usize::MAX as u64) {
            None => Err(PanelParseError::InvalidCountStr),
            Some(n) => {
                if n > 4 {
                    Err(PanelParseError::TooManyPetals(n as usize))
                } else {
                    Ok(Symbol::Petals { count: n as usize })
                }
            },
        }
    } else {
        Err(PanelParseError::InvalidCharacter(c as char))
    }
}

impl Panel {
    /// Reads a cell from the bytes of its text.
    pub fn parse(bytes: &[u8]) -> (r: Result<Panel, PanelParseError>)
        ensures
            panel_parse_agrees(r, parse_panel(bytes@)),
    {
        let len = bytes.len();
        if len == 0 {
            return Err(PanelParseError::EmptyPanel);
        }
        let fill = bytes[0];
        if !(fill == 46 || fill == 120 || fill == 88) {
            return Err(PanelParseError::InvalidCharacter(fill as char));
        }
        let fixed = len >= 2 && bytes[1] == 33;
        let start: usize = if fixed {
            2
        } else {
            1
        };
        match scan_symbol(bytes, start) {
            Ok(symbol) => Ok(Panel { filled: fill != 46, fixed, symbol }),
            Err(e) => Err(e),
        }
    }

    /// Reads a cell from its text.
    pub fn from_str(s: &str) -> (r: Result<Panel, PanelParseError>)
        ensures
            panel_parse_agrees(r, parse_panel(encode_utf8(s@))),
    {
        Panel::parse(s.as_bytes())
    }

    /// Appends the text of the cell.
    pub fn write_to(&self, out: &mut String)
        ensures
            final(out)@ == old(out)@ + panel_text(*self),
    {
        proof {
            reveal_strlit("X");
            reveal_strlit(".");
            reveal_strlit("!");
            reveal_strlit("C");
            reveal_strlit("/");
            reveal_strlit("-");
            reveal_strlit("O");
            reveal_strlit("F");
        }
        if self.filled {
            out.append("X");
        } else {
            out.append(".");
        }
        if self.fixed {
            out.append("!");
        }
        let ghost head = out@;
        proof {
            assert(head =~= old(out)@ + seq![
                if self.filled {
                    'X'
                } else {
                    '.'
                },
            ] + (if self.fixed {
                seq!['!']
            } else {
                Seq::empty()
            }));
        }
        match self.symbol {
            Symbol::Plain => {},
            Symbol::Pips { count, color } => {
                out.append("C");
                out.append(code_text(color));
                push_signed_decimal(out, count as i64);
            },
            Symbol::Line { diagonal, color } => {
                if diagonal {
                    out.append("/");
                } else {
                    out.append("-");
                }
                out.append(code_text(color));
            },
            Symbol::Lozange { color } => {
                out.append("O");
                out.append(code_text(color));
            },
            Symbol::Petals { count } => {
                out.append("F");
                push_decimal(out, count as u64);
            },
        }
        proof {
            assert(out@ =~= head + symbol_text(self.symbol));
            assert(out@ =~= old(out)@ + panel_text(*self));
        }
    }

    /// The text of the cell.
    pub fn to_string(&self) -> (text: String)
        ensures
            text@ == panel_text(*self),
    {
        let mut out = String::new();
        self.write_to(&mut out);
        proof {
            assert(out@ =~= panel_text(*self));
        }
        out
    }
}

/// The text of a signed count within the range of pips reads back as the count.
proof fn lemma_signed_round_trip(n: int)
    requires
        -128 <= n <= 127,
    ensures
        parse_signed(ascii_bytes(signed_decimal(n)), 128, 127) == Some(n),
{
    let bytes = ascii_bytes(signed_decimal(n));
    if n < 0 {
        lemma_decimal_round_trip((-n) as nat);
        assert(bytes[0] == 45);
        assert(bytes.skip(1) =~= ascii_bytes(decimal((-n) as nat)));
    } else {
        lemma_decimal_round_trip(n as nat);
    }
}

/// The text of a valid glyph consists of ASCII characters, does not start with `!`, and
/// reads back as the glyph.
#[verifier::rlimit(50)]
pub proof fn lemma_symbol_round_trip(symbol: Symbol)
    requires
        symbol.valid(),
    ensures
        is_ascii_chars(symbol_text(symbol)),
        symbol_text(symbol).len() > 0 ==> ascii_bytes(symbol_text(symbol))[0] != 33,
        parse_symbol(ascii_bytes(symbol_text(symbol))) == Ok::<Symbol, PanelParseFault>(symbol),
{
    let glyph = symbol_text(symbol);
    let rest = ascii_bytes(glyph);
    match symbol {
        Symbol::Plain => {},
        Symbol::Pips { count, color } => {
            let number = signed_decimal(count as int);
            let size: nat = if count < 0 {
                (-count) as nat
            } else {
                count as nat
            };
            lemma_signed_round_trip(count as int);
            lemma_decimal_round_trip(size);
            lemma_decimal_is_ascii(size);
            color.lemma_code_round_trip();
            assert(glyph.len() == number.len() + 2);
            assert(glyph[0] == 'C');
            assert(glyph[1] == color.code_spec());
            assert(forall|i: int| 0 <= i < number.len() ==> #[trigger] number[i] == glyph[i + 2]);
            assert(rest.skip(2) =~= ascii_bytes(number));
            assert(rest[0] == 67);
            assert(rest[1] as char == color.code_spec());
            assert forall|i: int| 0 <= i < glyph.len() implies '\0' <= #[trigger] glyph[i]
                <= '\u{7f}' by {
                if i >= 2 {
                    assert(glyph[i] == number[i - 2]);
                    if count < 0 && i > 2 {
                        assert(number[i - 2] == decimal(size)[i - 3]);
                    }
                }
            }
        },
        Symbol::Line { diagonal, color } => {
            color.lemma_code_round_trip();
            assert(rest[0] == (if diagonal {
                47u8
            } else {
                45u8
            }));
            assert(rest[1] as char == color.code_spec());
            assert(rest.len() == 2);
        },
        Symbol::Lozange { color } => {
            color.lemma_code_round_trip();
            assert(rest[0] == 79);
            assert(rest[1] as char == color.code_spec());
            assert(rest.len() == 2);
        },
        Symbol::Petals { count } => {
            let number = decimal(count as nat);
            lemma_decimal_round_trip(count as nat);
            lemma_decimal_is_ascii(count as nat);
            assert(glyph[0] == 'F');
            assert(forall|i: int| 0 <= i < number.len() ==> #[trigger] number[i] == glyph[i + 1]);
            assert(rest.skip(1) =~= ascii_bytes(number));
            assert(rest[0] == 70);
            assert forall|i: int| 0 <= i < glyph.len() implies '\0' <= #[trigger] glyph[i]
                <= '\u{7f}' by {
                if i >= 1 {
                    assert(glyph[i] == number[i - 1]);
                }
            }
        },
    }
}

/// The text of every cell whose glyph is valid consists of ASCII characters and reads
/// back as the cell.
#[verifier::rlimit(50)]
pub proof fn lemma_panel_round_trip(panel: Panel)
    requires
        panel.symbol.valid(),
    ensures
        is_ascii_chars(panel_text(panel)),
        parse_panel(encode_utf8(panel_text(panel))) == Ok::<Panel, PanelParseFault>(panel),
{
    let text = panel_text(panel);
    let bytes = ascii_bytes(text);
    let glyph = symbol_text(panel.symbol);
    let rest = ascii_bytes(glyph);
    let skipped: int = if panel.fixed {
        2
    } else {
        1
    };
    lemma_symbol_round_trip(panel.symbol);
    assert(text.len() == skipped + glyph.len());
    assert(forall|i: int| 0 <= i < glyph.len() ==> #[trigger] glyph[i] == text[i + skipped]);
    assert(text[0] == (if panel.filled {
        'X'
    } else {
        '.'
    }));
    if panel.fixed {
        assert(text[1] == '!');
    }
    assert(is_ascii_chars(text)) by {
        assert forall|i: int| 0 <= i < text.len() implies '\0' <= #[trigger] text[i]
            <= '\u{7f}' by {
            if i >= skipped {
                assert(text[i] == glyph[i - skipped]);
            }
        }
    }
    is_ascii_chars_encode_utf8(text);
    assert(encode_utf8(text) =~= bytes);
    assert(bytes.skip(skipped) =~= rest);
    if !panel.fixed && bytes.len() >= 2 {
        assert(bytes[1] == rest[0]);
    }
}

} // verus!
