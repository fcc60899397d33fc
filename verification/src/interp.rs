//! The escape-sequence interpreter: a byte-oriented parser automaton.
//!
//! Incoming bytes are classified as printable text (UTF-8, decoded
//! incrementally), C0 control codes, or escape sequences.  CSI sequences
//! (`ESC [ <params> <final>`) carry semicolon-separated numeric
//! parameters; the first two are kept and dispatched on the final byte.
//! OSC and DCS strings and other escape sequences are consumed so the
//! automaton stays synchronized, but touch nothing.
//!
//! The spec function `step` gives the meaning of one byte as a transition
//! on the pair (parser state, screen), `run` folds it over a byte
//! sequence, and `Interpreter::advance` is proved to compute exactly
//! `run`.  Because `run` folds byte by byte, a stream split into chunks
//! at any point mutates the screen exactly as the unsplit stream —
//! `lemma_run_chunked` states that law.

use vstd::prelude::*;

use crate::screen::ScreenView;
use crate::screen::TerminalBuffer;

verus! {

/// State of the parser automaton between bytes.  `Csi` accumulates the
/// first two numeric parameters and the index of the parameter being
/// read; `Utf8Seq` holds a partially decoded multi-byte character.
#[derive(Clone, Copy, Debug)]
pub enum ParserState {
    Ground,
    Escape,
    EscapeMid,
    Csi { p0: u16, p1: u16, idx: u8 },
    Osc,
    Dcs,
    Utf8Seq { need: u8, acc: u32 },
}

/// Whether `u` is a Unicode scalar value, i.e. the value of some `char`.
pub open spec fn valid_scalar(u: u32) -> bool {
    u < 0xD800 || (0xE000 <= u && u <= 0x10FFFF)
}

/// The character a completed UTF-8 sequence with value `u` prints: the
/// scalar itself, or the replacement character for a malformed sequence.
pub open spec fn decoded_char(u: u32) -> char {
    if valid_scalar(u) {
        u as char
    } else {
        '\u{FFFD}'
    }
}

/// One more decimal digit appended to a CSI parameter, saturating.
pub open spec fn sat_param(p: u16, d: u8) -> u16 {
    if 10 * (p as int) + (d as int) > 0xFFFF {
        0xFFFF
    } else {
        (10 * p + d) as u16
    }
}

/// The effect of a C0 control byte (or DEL) on the screen.
pub open spec fn control_effect(v: ScreenView, b: u8) -> ScreenView {
    if b == 0x08 || b == 0x7f {
        v.backspace()
    } else if b == 0x09 {
        v.tab()
    } else if b == 0x0a || b == 0x0b || b == 0x0c {
        v.newline()
    } else if b == 0x0d {
        v.carriage_return()
    } else {
        v
    }
}

/// The effect of a completed CSI sequence on the screen: cursor moves,
/// cursor placement, and the two erase operations.  `m` (select graphic
/// rendition) and every other final byte leave the screen untouched.
pub open spec fn csi_effect(v: ScreenView, action: char, p0: u16, p1: u16) -> ScreenView {
    let n: nat = if p0 == 0 {
        1
    } else {
        p0 as nat
    };
    if action == 'A' {
        v.cursor_up(n)
    } else if action == 'B' {
        v.cursor_down(n)
    } else if action == 'C' {
        v.cursor_forward(n)
    } else if action == 'D' {
        v.cursor_back(n)
    } else if action == 'H' || action == 'f' {
        v.set_cursor_pos(p0 as nat, p1 as nat)
    } else if action == 'J' {
        v.erase_in_display(p0)
    } else if action == 'K' {
        v.erase_in_line(p0)
    } else {
        v
    }
}

/// One byte consumed in the ground state: ESC opens an escape sequence,
/// control bytes act directly, ASCII prints, and UTF-8 lead bytes open a
/// multi-byte character; stray continuation bytes and invalid leads
/// print the replacement character.
pub open spec fn ground_step(v: ScreenView, b: u8) -> (ParserState, ScreenView) {
    if b == 0x1b {
        (ParserState::Escape, v)
    } else if b < 0x20 || b == 0x7f {
        (ParserState::Ground, control_effect(v, b))
    } else if b < 0x80 {
        (ParserState::Ground, v.print(b as char))
    } else if 0xc2 <= b && b <= 0xdf {
        (ParserState::Utf8Seq { need: 1, acc: (b & 0x1f) as u32 }, v)
    } else if 0xe0 <= b && b <= 0xef {
        (ParserState::Utf8Seq { need: 2, acc: (b & 0x0f) as u32 }, v)
    } else if 0xf0 <= b && b <= 0xf4 {
        (ParserState::Utf8Seq { need: 3, acc: (b & 0x07) as u32 }, v)
    } else {
        (ParserState::Ground, v.print('\u{FFFD}'))
    }
}

/// The parser automaton: one byte consumed in any state.  CAN and SUB
/// abort a sequence; ESC restarts one; control bytes still act inside
/// CSI and escape states; everything an OSC or DCS string carries is
/// consumed without effect.
pub open spec fn step(st: ParserState, v: ScreenView, b: u8) -> (ParserState, ScreenView) {
    match st {
        ParserState::Ground => ground_step(v, b),
        ParserState::Escape => {
            if b == 0x5b {
                (ParserState::Csi { p0: 0, p1: 0, idx: 0 }, v)
            } else if b == 0x5d {
                (ParserState::Osc, v)
            } else if b == 0x50 {
                (ParserState::Dcs, v)
            } else if 0x20 <= b && b <= 0x2f {
                (ParserState::EscapeMid, v)
            } else if b == 0x1b {
                (ParserState::Escape, v)
            } else if b == 0x18 || b == 0x1a {
                (ParserState::Ground, v)
            } else if b < 0x20 {
                (ParserState::Escape, control_effect(v, b))
            } else if b <= 0x7e {
                (ParserState::Ground, v)
            } else if b == 0x7f {
                (ParserState::Escape, v)
            } else {
                (ParserState::Ground, v)
            }
        },
        ParserState::EscapeMid => {
            if b == 0x1b {
                (ParserState::Escape, v)
            } else if b == 0x18 || b == 0x1a {
                (ParserState::Ground, v)
            } else if b < 0x20 {
                (ParserState::EscapeMid, control_effect(v, b))
            } else if b <= 0x2f {
                (ParserState::EscapeMid, v)
            } else if b <= 0x7e {
                (ParserState::Ground, v)
            } else {
                (ParserState::EscapeMid, v)
            }
        },
        ParserState::Csi { p0, p1, idx } => {
            if 0x30 <= b && b <= 0x39 {
                let d = (b - 0x30) as u8;
                if idx == 0 {
                    (ParserState::Csi { p0: sat_param(p0, d), p1, idx }, v)
                } else if idx == 1 {
                    (ParserState::Csi { p0, p1: sat_param(p1, d), idx }, v)
                } else {
                    (st, v)
                }
            } else if b == 0x3b {
                (
                    ParserState::Csi {
                        p0,
                        p1,
                        idx: if idx < 2 {
                            (idx + 1) as u8
                        } else {
                            idx
                        },
                    },
                    v,
                )
            } else if 0x40 <= b && b <= 0x7e {
                (ParserState::Ground, csi_effect(v, b as char, p0, p1))
            } else if b == 0x1b {
                (ParserState::Escape, v)
            } else if b == 0x18 || b == 0x1a {
                (ParserState::Ground, v)
            } else if b < 0x20 {
                (st, control_effect(v, b))
            } else {
                (st, v)
            }
        },
        ParserState::Osc => {
            if b == 0x07 {
                (ParserState::Ground, v)
            } else if b == 0x1b {
                (ParserState::Escape, v)
            } else if b == 0x18 || b == 0x1a {
                (ParserState::Ground, v)
            } else {
                (ParserState::Osc, v)
            }
        },
        ParserState::Dcs => {
            if b == 0x1b {
                (ParserState::Escape, v)
            } else if b == 0x18 || b == 0x1a {
                (ParserState::Ground, v)
            } else {
                (ParserState::Dcs, v)
            }
        },
        ParserState::Utf8Seq { need, acc } => {
            if 0x80 <= b && b <= 0xbf {
                let acc2 = (acc << 6u32) | ((b & 0x3f) as u32);
                if need <= 1 {
                    (ParserState::Ground, v.print(decoded_char(acc2)))
                } else {
                    (ParserState::Utf8Seq { need: (need - 1) as u8, acc: acc2 }, v)
                }
            } else {
                // Malformed sequence: print the replacement character and
                // reprocess the byte from the ground state.
                ground_step(v.print('\u{FFFD}'), b)
            }
        },
    }
}

/// The automaton folded over a whole byte sequence.
pub open spec fn run(st: ParserState, v: ScreenView, bytes: Seq<u8>) -> (ParserState, ScreenView)
    decreases bytes.len(),
{
    if bytes.len() == 0 {
        (st, v)
    } else {
        let first = step(st, v, bytes[0]);
        run(first.0, first.1, bytes.subrange(1, bytes.len() as int))
    }
}

/// Consuming one more byte after a sequence is one more step.
pub proof fn lemma_run_snoc(st: ParserState, v: ScreenView, s: Seq<u8>, b: u8)
    ensures
        run(st, v, s.push(b)) == step(run(st, v, s).0, run(st, v, s).1, b),
    decreases s.len(),
{
    if s.len() == 0 {
        assert(s.push(b)[0] == b);
        assert(s.push(b).subrange(1, s.push(b).len() as int) =~= Seq::<u8>::empty());
        assert(run(st, v, s.push(b))
            == run(step(st, v, b).0, step(st, v, b).1, Seq::<u8>::empty()));
        assert(run(st, v, s) == (st, v));
    } else {
        let first = step(st, v, s[0]);
        let tail = s.subrange(1, s.len() as int);
        assert(s.push(b)[0] == s[0]);
        assert(s.push(b).subrange(1, s.push(b).len() as int) =~= tail.push(b));
        lemma_run_snoc(first.0, first.1, tail, b);
        assert(run(st, v, s.push(b)) == run(first.0, first.1, tail.push(b)));
        assert(run(st, v, s) == run(first.0, first.1, tail));
    }
}

/// Law: a byte stream split into two chunks leaves the parser and the
/// screen exactly as the unsplit stream does — the automaton's state
/// survives chunk boundaries.
pub proof fn lemma_run_chunked(st: ParserState, v: ScreenView, a: Seq<u8>, b: Seq<u8>)
    ensures
        run(st, v, a + b) == run(run(st, v, a).0, run(st, v, a).1, b),
    decreases a.len(),
{
    if a.len() == 0 {
        assert(a + b =~= b);
    } else {
        let first = step(st, v, a[0]);
        assert((a + b)[0] == a[0]);
        assert((a + b).subrange(1, (a + b).len() as int) =~= a.subrange(1, a.len() as int) + b);
        lemma_run_chunked(first.0, first.1, a.subrange(1, a.len() as int), b);
    }
}

/// A ground-state byte leaves the screen well-formed with its
/// dimensions unchanged.
pub proof fn lemma_ground_step_preserves_wf(v: ScreenView, b: u8)
    requires
        v.wf(),
    ensures
        ground_step(v, b).1.wf(),
        ground_step(v, b).1.rows == v.rows,
        ground_step(v, b).1.cols == v.cols,
{
    crate::screen::lemma_ops_preserve_wf(v, b as char, 0, 0, 0, 0);
    crate::screen::lemma_ops_preserve_wf(v, '\u{FFFD}', 0, 0, 0, 0);
}

/// Law: no single byte, in any parser state, moves the cursor out of
/// `[0, rows) x [0, cols]` or changes the screen's dimensions.
pub proof fn lemma_step_preserves_wf(st: ParserState, v: ScreenView, b: u8)
    requires
        v.wf(),
    ensures
        step(st, v, b).1.wf(),
        step(st, v, b).1.rows == v.rows,
        step(st, v, b).1.cols == v.cols,
{
    lemma_ground_step_preserves_wf(v, b);
    crate::screen::lemma_ops_preserve_wf(v, ' ', 0, 0, 0, 0);
    match st {
        ParserState::Csi { p0, p1, idx } => {
            if 0x40 <= b && b <= 0x7e {
                let n: nat = if p0 == 0 {
                    1
                } else {
                    p0 as nat
                };
                crate::screen::lemma_ops_preserve_wf(v, b as char, n, p0 as nat, p1 as nat, p0);
            }
        },
        ParserState::Utf8Seq { need, acc } => {
            if 0x80 <= b && b <= 0xbf {
                let acc2 = (acc << 6u32) | ((b & 0x3f) as u32);
                crate::screen::lemma_ops_preserve_wf(v, decoded_char(acc2), 0, 0, 0, 0);
            } else {
                lemma_ground_step_preserves_wf(v.print('\u{FFFD}'), b);
            }
        },
        _ => {},
    }
}

/// Law: feeding any byte stream to a well-formed screen leaves it
/// well-formed — the cursor never escapes `[0, rows) x [0, cols]` and
/// the grid keeps its shape.
pub proof fn lemma_run_preserves_wf(st: ParserState, v: ScreenView, bytes: Seq<u8>)
    requires
        v.wf(),
    ensures
        run(st, v, bytes).1.wf(),
        run(st, v, bytes).1.rows == v.rows,
        run(st, v, bytes).1.cols == v.cols,
    decreases bytes.len(),
{
    if bytes.len() > 0 {
        lemma_step_preserves_wf(st, v, bytes[0]);
        let first = step(st, v, bytes[0]);
        lemma_run_preserves_wf(first.0, first.1, bytes.subrange(1, bytes.len() as int));
    }
}

/// A byte that may stand in the parameter list of a CSI sequence:
/// a decimal digit or the semicolon separator.
pub open spec fn is_csi_param_byte(b: u8) -> bool {
    (0x30 <= b && b <= 0x39) || b == 0x3b
}

/// Parameter bytes keep the automaton collecting CSI parameters and
/// never touch the screen.
pub proof fn lemma_csi_params_consume(p0: u16, p1: u16, idx: u8, v: ScreenView, params: Seq<u8>)
    requires
        forall|i: int| 0 <= i < params.len() ==> is_csi_param_byte(#[trigger] params[i]),
    ensures
        run(ParserState::Csi { p0, p1, idx }, v, params).0 is Csi,
        run(ParserState::Csi { p0, p1, idx }, v, params).1 == v,
    decreases params.len(),
{
    if params.len() > 0 {
        let first = step(ParserState::Csi { p0, p1, idx }, v, params[0]);
        assert(first.0 is Csi && first.1 == v);
        let tail = params.subrange(1, params.len() as int);
        match first.0 {
            ParserState::Csi { p0: q0, p1: q1, idx: i2 } => {
                lemma_csi_params_consume(q0, q1, i2, v, tail);
            },
            _ => {},
        }
    }
}

/// Law: a select-graphic-rendition sequence `ESC [ <params> m`, with any
/// parameters, leaves the cursor and the grid untouched and returns the
/// automaton to the ground state, so the bytes that follow it parse
/// exactly as they would have without it.
pub proof fn lemma_sgr_ignored(v: ScreenView, params: Seq<u8>)
    requires
        forall|i: int| 0 <= i < params.len() ==> is_csi_param_byte(#[trigger] params[i]),
    ensures
        run(ParserState::Ground, v, seq![0x1bu8, 0x5bu8] + params + seq![0x6du8])
            == (ParserState::Ground, v),
{
    let opener = seq![0x1bu8, 0x5bu8];
    let fin = seq![0x6du8];
    let entry = ParserState::Csi { p0: 0, p1: 0, idx: 0 };
    assert(run(ParserState::Ground, v, opener) == (entry, v)) by {
        assert(opener.len() == 2);
        assert(opener[0] == 0x1b);
        assert(step(ParserState::Ground, v, 0x1b) == (ParserState::Escape, v));
        let rest = opener.subrange(1, 2);
        assert(rest.len() == 1);
        assert(rest[0] == 0x5b);
        assert(step(ParserState::Escape, v, 0x5b) == (entry, v));
        assert(rest.subrange(1, 1).len() == 0);
        assert(run(entry, v, rest.subrange(1, 1)) == (entry, v));
        assert(run(ParserState::Escape, v, rest) == (entry, v));
        assert(run(ParserState::Ground, v, opener) == run(ParserState::Escape, v, rest));
    }
    lemma_run_chunked(ParserState::Ground, v, opener, params);
    assert(opener + params + fin =~= opener + (params + fin));
    lemma_run_chunked(ParserState::Ground, v, opener, params + fin);
    lemma_run_chunked(entry, v, params, fin);
    lemma_csi_params_consume(0, 0, 0, v, params);
    let mid = run(entry, v, params).0;
    match mid {
        ParserState::Csi { p0, p1, idx } => {
            assert(fin[0] == 0x6d);
            assert((0x6du8) as char == 'm');
            assert(csi_effect(v, 'm', p0, p1) == v);
            assert(step(mid, v, 0x6d) == (ParserState::Ground, v));
            assert(fin.len() == 1);
            assert(fin.subrange(1, 1).len() == 0);
            assert(run(ParserState::Ground, v, fin.subrange(1, 1)) == (ParserState::Ground, v));
            assert(run(mid, v, fin) == (ParserState::Ground, v));
        },
        _ => {},
    }
}

/// Relies on `char::from_u32`: it returns `Some` exactly when its
/// argument is a Unicode scalar value, and the returned character has
/// that value.
#[verifier::external_body]
fn scalar_to_char(u: u32) -> (c: char)
    requires
        valid_scalar(u),
    ensures
        c == u as char,
{
    char::from_u32(u).unwrap_or('\u{FFFD}')
}

/// The escape-sequence interpreter.  It owns only the automaton state;
/// the screen it drives is passed to `advance` by reference, so one
/// interpreter follows one byte stream for one buffer.
pub struct Interpreter {
    state: ParserState,
}

impl View for Interpreter {
    type V = ParserState;

    closed spec fn view(&self) -> ParserState {
        self.state
    }
}

impl Interpreter {
    /// A fresh interpreter in the ground state.
    pub fn new() -> (interp: Interpreter)
        ensures
            interp@ == ParserState::Ground,
    {
        Interpreter { state: ParserState::Ground }
    }

    /// Apply one C0 control byte (or DEL) to the buffer.
    fn control_byte(buf: &mut TerminalBuffer, b: u8)
        requires
            old(buf).wf(),
        ensures
            final(buf)@ == control_effect(old(buf)@, b),
            final(buf).wf(),
    {
        if b == 0x08 || b == 0x7f {
            buf.backspace();
        } else if b == 0x09 {
            buf.tab();
        } else if b == 0x0a || b == 0x0b || b == 0x0c {
            buf.newline();
        } else if b == 0x0d {
            buf.carriage_return();
        }
    }

    /// One more decimal digit appended to a CSI parameter, saturating.
    fn sat_add(p: u16, d: u8) -> (r: u16)
        ensures
            r == sat_param(p, d),
    {
        let q: u32 = p as u32 * 10 + d as u32;
        if q > 0xFFFF {
            0xFFFF
        } else {
            q as u16
        }
    }

    /// Dispatch a completed CSI sequence on its final byte.
    fn csi_action(buf: &mut TerminalBuffer, action: char, p0: u16, p1: u16)
        requires
            old(buf).wf(),
        ensures
            final(buf)@ == csi_effect(old(buf)@, action, p0, p1),
            final(buf).wf(),
    {
        let n: u16 = if p0 == 0 {
            1
        } else {
            p0
        };
        if action == 'A' {
            buf.cursor_up(n as usize);
        } else if action == 'B' {
            buf.cursor_down(n as usize);
        } else if action == 'C' {
            buf.cursor_forward(n as usize);
        } else if action == 'D' {
            buf.cursor_back(n as usize);
        } else if action == 'H' || action == 'f' {
            buf.set_cursor_pos(p0 as usize, p1 as usize);
        } else if action == 'J' {
            buf.erase_in_display(p0);
        } else if action == 'K' {
            buf.erase_in_line(p0);
        }
    }

    /// Consume one byte in the ground state (also the resynchronization
    /// path after a malformed UTF-8 sequence).
    fn ground_byte(&mut self, buf: &mut TerminalBuffer, b: u8)
        requires
            old(buf).wf(),
        ensures
            final(self)@ == ground_step(old(buf)@, b).0,
            final(buf)@ == ground_step(old(buf)@, b).1,
            final(buf).wf(),
    {
        if b == 0x1b {
            self.state = ParserState::Escape;
        } else if b < 0x20 || b == 0x7f {
            self.state = ParserState::Ground;
            Self::control_byte(buf, b);
        } else if b < 0x80 {
            self.state = ParserState::Ground;
            buf.print(b as char);
        } else if 0xc2 <= b && b <= 0xdf {
            self.state = ParserState::Utf8Seq { need: 1, acc: (b & 0x1f) as u32 };
        } else if 0xe0 <= b && b <= 0xef {
            self.state = ParserState::Utf8Seq { need: 2, acc: (b & 0x0f) as u32 };
        } else if 0xf0 <= b && b <= 0xf4 {
            self.state = ParserState::Utf8Seq { need: 3, acc: (b & 0x07) as u32 };
        } else {
            self.state = ParserState::Ground;
            buf.print('\u{FFFD}');
        }
    }

    /// Consume one byte: exactly one `step` of the automaton.
    fn step_byte(&mut self, buf: &mut TerminalBuffer, b: u8)
        requires
            old(buf).wf(),
        ensures
            final(self)@ == step(old(self)@, old(buf)@, b).0,
            final(buf)@ == step(old(self)@, old(buf)@, b).1,
            final(buf).wf(),
    {
        match self.state {
            ParserState::Ground => {
                self.ground_byte(buf, b);
            },
            ParserState::Escape => {
                if b == 0x5b {
                    self.state = ParserState::Csi { p0: 0, p1: 0, idx: 0 };
                } else if b == 0x5d {
                    self.state = ParserState::Osc;
                } else if b == 0x50 {
                    self.state = ParserState::Dcs;
                } else if 0x20 <= b && b <= 0x2f {
                    self.state = ParserState::EscapeMid;
                } else if b == 0x1b {
                } else if b == 0x18 || b == 0x1a {
                    self.state = ParserState::Ground;
                } else if b < 0x20 {
                    Self::control_byte(buf, b);
                } else if b <= 0x7e {
                    self.state = ParserState::Ground;
                } else if b == 0x7f {
                } else {
                    self.state = ParserState::Ground;
                }
            },
            ParserState::EscapeMid => {
                if b == 0x1b {
                    self.state = ParserState::Escape;
                } else if b == 0x18 || b == 0x1a {
                    self.state = ParserState::Ground;
                } else if b < 0x20 {
                    Self::control_byte(buf, b);
                } else if b <= 0x2f {
                } else if b <= 0x7e {
                    self.state = ParserState::Ground;
                }
            },
            ParserState::Csi { p0, p1, idx } => {
                if 0x30 <= b && b <= 0x39 {
                    let d = b - 0x30;
                    if idx == 0 {
                        self.state = ParserState::Csi { p0: Self::sat_add(p0, d), p1, idx };
                    } else if idx == 1 {
                        self.state = ParserState::Csi { p0, p1: Self::sat_add(p1, d), idx };
                    }
                } else if b == 0x3b {
                    let next = if idx < 2 {
                        idx + 1
                    } else {
                        idx
                    };
                    self.state = ParserState::Csi { p0, p1, idx: next };
                } else if 0x40 <= b && b <= 0x7e {
                    self.state = ParserState::Ground;
                    Self::csi_action(buf, b as char, p0, p1);
                } else if b == 0x1b {
                    self.state = ParserState::Escape;
                } else if b == 0x18 || b == 0x1a {
                    self.state = ParserState::Ground;
                } else if b < 0x20 {
                    Self::control_byte(buf, b);
                }
            },
            ParserState::Osc => {
                if b == 0x07 {
                    self.state = ParserState::Ground;
                } else if b == 0x1b {
                    self.state = ParserState::Escape;
                } else if b == 0x18 || b == 0x1a {
                    self.state = ParserState::Ground;
                }
            },
            ParserState::Dcs => {
                if b == 0x1b {
                    self.state = ParserState::Escape;
                } else if b == 0x18 || b == 0x1a {
                    self.state = ParserState::Ground;
                }
            },
            ParserState::Utf8Seq { need, acc } => {
                if 0x80 <= b && b <= 0xbf {
                    let acc2: u32 = (acc << 6u32) | ((b & 0x3f) as u32);
                    if need <= 1 {
                        self.state = ParserState::Ground;
                        let c = if acc2 < 0xD800 || (0xE000 <= acc2 && acc2 <= 0x10FFFF) {
                            scalar_to_char(acc2)
                        } else {
                            '\u{FFFD}'
                        };
                        buf.print(c);
                    } else {
                        self.state = ParserState::Utf8Seq { need: need - 1, acc: acc2 };
                    }
                } else {
                    buf.print('\u{FFFD}');
                    self.ground_byte(buf, b);
                }
            },
        }
    }

    /// Feed a chunk of bytes: the automaton folded over the chunk, i.e.
    /// exactly `run` of the old state and screen.
    pub fn advance(&mut self, buf: &mut TerminalBuffer, bytes: &[u8])
        requires
            old(buf).wf(),
        ensures
            final(self)@ == run(old(self)@, old(buf)@, bytes@).0,
            final(buf)@ == run(old(self)@, old(buf)@, bytes@).1,
            final(buf).wf(),
    {
        let ghost st0 = self@;
        let ghost v0 = buf@;
        let mut i: usize = 0;
        proof {
            assert(bytes@.subrange(0, 0) =~= Seq::<u8>::empty());
        }
        while i < bytes.len()
            invariant
                i <= bytes@.len(),
                buf.wf(),
                self@ == run(st0, v0, bytes@.subrange(0, i as int)).0,
                buf@ == run(st0, v0, bytes@.subrange(0, i as int)).1,
            decreases bytes@.len() - i,
        {
            let b = bytes[i];
            self.step_byte(buf, b);
            proof {
                lemma_run_snoc(st0, v0, bytes@.subrange(0, i as int), b);
                assert(bytes@.subrange(0, i as int).push(b) =~= bytes@.subrange(0, i + 1));
            }
            i += 1;
        }
        proof {
            assert(bytes@.subrange(0, bytes@.len() as int) =~= bytes@);
        }
    }
}

} // verus!

