//! Colorized terminal output formatting for window listings: ANSI-styled,
//! concise, or plain, depending on the chosen mode and whether the output is
//! a terminal.

use vstd::prelude::*;
use vstd::string::StringExecFns;
use crate::text::{id_hex_seq, id_hex_string, dec_seq, dec_string, str_chars, chars_to_string};

verus! {

/// Output formatting modes.
#[derive(Debug, Clone, Copy, PartialEq, Eq, Structural)]
pub enum OutputMode {
    /// Full color output with styles.
    Colorized,
    /// Compact format with minimal colors.
    Concise,
    /// Plain text output without colors.
    NoColor,
}

/// An ANSI escape: select-graphic-rendition codes around the text, with a
/// reset at the end.
pub open spec fn ansi_wrap(codes: Seq<char>, s: Seq<char>) -> Seq<char> {
    seq!['\u{1b}', '['] + codes + seq!['m'] + s + seq!['\u{1b}', '[', '0', 'm']
}

/// Wrap `s` in the ANSI escape with the given codes.
fn paint(codes: &str, s: &str) -> (r: String)
    ensures
        r@ == ansi_wrap(codes@, s@),
{
    let mut out = String::new();
    out.append("\u{1b}[");
    out.append(codes);
    out.append("m");
    out.append(s);
    out.append("\u{1b}[0m");
    proof {
        reveal_strlit("\u{1b}[");
        reveal_strlit("m");
        reveal_strlit("\u{1b}[0m");
        assert("\u{1b}["@ =~= seq!['\u{1b}', '[']);
        assert("m"@ =~= seq!['m']);
        assert("\u{1b}[0m"@ =~= seq!['\u{1b}', '[', '0', 'm']);
        assert(out@ =~= ansi_wrap(codes@, s@));
    }
    out
}

/// A colorized output formatter: the chosen mode, and whether the output
/// stream is a terminal (colors are emitted only on terminals).
#[derive(Debug)]
pub struct ColorizedFormatter {
    mode: OutputMode,
    is_terminal: bool,
}

impl ColorizedFormatter {
    /// The chosen output mode.
    pub closed spec fn mode_spec(&self) -> OutputMode {
        self.mode
    }

    /// Whether the output stream was declared a terminal.
    pub closed spec fn terminal_spec(&self) -> bool {
        self.is_terminal
    }

    /// A formatter in full color mode. The terminal flag starts false (safe
    /// for redirected output); a host that knows its output is a terminal
    /// sets it with `set_terminal`.
    pub fn new() -> (f: ColorizedFormatter)
        ensures
            f.mode_spec() == OutputMode::Colorized,
            !f.terminal_spec(),
    {
        ColorizedFormatter { mode: OutputMode::Colorized, is_terminal: false }
    }

    /// A formatter with the given mode; the terminal flag starts false.
    pub fn with_mode(mode: OutputMode) -> (f: ColorizedFormatter)
        ensures
            f.mode_spec() == mode,
            !f.terminal_spec(),
    {
        ColorizedFormatter { mode, is_terminal: false }
    }

    /// Declare whether the output stream is a terminal.
    pub fn set_terminal(&mut self, is_terminal: bool)
        ensures
            final(self).mode_spec() == old(self).mode_spec(),
            final(self).terminal_spec() == is_terminal,
    {
        self.is_terminal = is_terminal;
    }

    pub fn set_mode(&mut self, mode: OutputMode)
        ensures
            final(self).mode_spec() == mode,
            final(self).terminal_spec() == old(self).terminal_spec(),
    {
        self.mode = mode;
    }

    pub fn get_mode(&self) -> (m: OutputMode)
        ensures
            m == self.mode_spec(),
    {
        self.mode
    }

    /// Style `s` with the strong codes in colorized mode, the soft codes in
    /// concise mode (on a terminal), and not at all otherwise.
    fn style(&self, strong: &str, soft: &str, s: &str) -> (r: String)
        ensures
            r@ == self.styled_spec(strong@, soft@, s@),
    {
        if self.is_terminal {
            match self.mode {
                OutputMode::Colorized => paint(strong, s),
                OutputMode::Concise => paint(soft, s),
                OutputMode::NoColor => s.to_owned(),
            }
        } else {
            s.to_owned()
        }
    }

    /// What `style` yields.
    pub open spec fn styled_spec(&self, strong: Seq<char>, soft: Seq<char>, s: Seq<char>) -> Seq<
        char,
    > {
        if self.mode_spec() == OutputMode::Colorized && self.terminal_spec() {
            ansi_wrap(strong, s)
        } else if self.mode_spec() == OutputMode::Concise && self.terminal_spec() {
            ansi_wrap(soft, s)
        } else {
            s
        }
    }

    /// Format a window id as `0x`-prefixed lowercase hexadecimal, bright blue
    /// and bold (blue when concise) on terminals.
    pub fn format_window_id(&self, id: u32) -> (r: String)
        ensures
            r@ == self.styled_spec(seq!['9', '4', ';', '1'], seq!['3', '4'], id_hex_seq(id)),
    {
        let hx = id_hex_string(id);
        proof {
            reveal_strlit("94;1");
            reveal_strlit("34");
            assert("94;1"@ =~= seq!['9', '4', ';', '1']);
            assert("34"@ =~= seq!['3', '4']);
        }
        self.style("94;1", "34", hx.as_str())
    }

    /// Format a window name, bright cyan (cyan when concise) on terminals.
    pub fn format_window_name(&self, name: &str) -> (r: String)
        ensures
            r@ == self.styled_spec(seq!['9', '6'], seq!['3', '6'], name@),
    {
        proof {
            reveal_strlit("96");
            reveal_strlit("36");
            assert("96"@ =~= seq!['9', '6']);
            assert("36"@ =~= seq!['3', '6']);
        }
        self.style("96", "36", name)
    }

    /// Format geometry text, bright red (red when concise) on terminals.
    pub fn format_geometry(&self, geom_str: &str) -> (r: String)
        ensures
            r@ == self.styled_spec(seq!['9', '1'], seq!['3', '1'], geom_str@),
    {
        proof {
            reveal_strlit("91");
            reveal_strlit("31");
            assert("91"@ =~= seq!['9', '1']);
            assert("31"@ =~= seq!['3', '1']);
        }
        self.style("91", "31", geom_str)
    }

    /// Format attribute text, bright green (green when concise) on terminals.
    pub fn format_attributes(&self, attrs_str: &str) -> (r: String)
        ensures
            r@ == self.styled_spec(seq!['9', '2'], seq!['3', '2'], attrs_str@),
    {
        proof {
            reveal_strlit("92");
            reveal_strlit("32");
            assert("92"@ =~= seq!['9', '2']);
            assert("32"@ =~= seq!['3', '2']);
        }
        self.style("92", "32", attrs_str)
    }

    /// What a diff-highlighted line is: black on (bright) white on
    /// terminals, a `>>> ` prefix otherwise.
    pub open spec fn diff_line_spec(&self, line: Seq<char>) -> Seq<char> {
        if self.terminal_spec() && (self.mode_spec() == OutputMode::Colorized || self.mode_spec()
            == OutputMode::Concise) {
            self.styled_spec(seq!['3', '0', ';', '1', '0', '7'], seq!['3', '0', ';', '4', '7'],
                line)
        } else {
            seq!['>', '>', '>', ' '] + line
        }
    }

    /// Format a line with diff highlighting.
    pub fn format_diff_line(&self, line: &str) -> (r: String)
        ensures
            r@ == self.diff_line_spec(line@),
    {
        proof {
            reveal_strlit("30;107");
            reveal_strlit("30;47");
            reveal_strlit(">>> ");
            assert("30;107"@ =~= seq!['3', '0', ';', '1', '0', '7']);
            assert("30;47"@ =~= seq!['3', '0', ';', '4', '7']);
            assert(">>> "@ =~= seq!['>', '>', '>', ' ']);
        }
        if self.is_terminal && (match self.mode {
            OutputMode::Colorized | OutputMode::Concise => true,
            OutputMode::NoColor => false,
        }) {
            self.style("30;107", "30;47", line)
        } else {
            let mut out = String::new();
            out.append(">>> ");
            out.append(line);
            proof {
                assert(out@ =~= seq!['>', '>', '>', ' '] + line@);
            }
            out
        }
    }

    /// A `Label: message` line with the label styled.
    fn labeled(&self, strong: &str, soft: &str, msg_codes: &str, label: &str, message: &str) -> (r:
        String)
        ensures
            r@ == self.labeled_view(strong@, soft@, msg_codes@, label@, message@),
    {
        let mut out = String::new();
        if self.is_terminal {
            match self.mode {
                OutputMode::Colorized => {
                    let styled_label = paint(strong, label);
                    let styled_msg = paint(msg_codes, message);
                    out.append(styled_label.as_str());
                    out.append(": ");
                    out.append(styled_msg.as_str());
                },
                OutputMode::Concise => {
                    let styled_label = paint(soft, label);
                    out.append(styled_label.as_str());
                    out.append(": ");
                    out.append(message);
                },
                OutputMode::NoColor => {
                    out.append(label);
                    out.append(": ");
                    out.append(message);
                },
            }
        } else {
            out.append(label);
            out.append(": ");
            out.append(message);
        }
        proof {
            reveal_strlit(": ");
            assert(": "@ =~= seq![':', ' ']);
            assert(out@ =~= self.labeled_view(strong@, soft@, msg_codes@, label@, message@));
        }
        out
    }

    /// What a labeled line is.
    pub open spec fn labeled_view(
        &self,
        strong: Seq<char>,
        soft: Seq<char>,
        msg_codes: Seq<char>,
        label: Seq<char>,
        message: Seq<char>,
    ) -> Seq<char> {
        if self.mode_spec() == OutputMode::Colorized && self.terminal_spec() {
            ansi_wrap(strong, label) + seq![':', ' '] + ansi_wrap(msg_codes, message)
        } else if self.mode_spec() == OutputMode::Concise && self.terminal_spec() {
            ansi_wrap(soft, label) + seq![':', ' '] + message
        } else {
            label + seq![':', ' '] + message
        }
    }

    /// Format an error message: `Error: ...`, red on terminals.
    pub fn format_error(&self, message: &str) -> (r: String)
        ensures
            r@ == self.labeled_view(
                seq!['9', '1', ';', '1'],
                seq!['3', '1'],
                seq!['3', '1'],
                seq!['E', 'r', 'r', 'o', 'r'],
                message@,
            ),
    {
        proof {
            reveal_strlit("91;1");
            reveal_strlit("31");
            reveal_strlit("Error");
            assert("91;1"@ =~= seq!['9', '1', ';', '1']);
            assert("31"@ =~= seq!['3', '1']);
            assert("Error"@ =~= seq!['E', 'r', 'r', 'o', 'r']);
        }
        self.labeled("91;1", "31", "31", "Error", message)
    }

    /// Format a warning message: `Warning: ...`, yellow on terminals.
    pub fn format_warning(&self, message: &str) -> (r: String)
        ensures
            r@ == self.labeled_view(
                seq!['9', '3', ';', '1'],
                seq!['3', '3'],
                seq!['3', '3'],
                seq!['W', 'a', 'r', 'n', 'i', 'n', 'g'],
                message@,
            ),
    {
        proof {
            reveal_strlit("93;1");
            reveal_strlit("33");
            reveal_strlit("Warning");
            assert("93;1"@ =~= seq!['9', '3', ';', '1']);
            assert("33"@ =~= seq!['3', '3']);
            assert("Warning"@ =~= seq!['W', 'a', 'r', 'n', 'i', 'n', 'g']);
        }
        self.labeled("93;1", "33", "33", "Warning", message)
    }

    /// Format an info message: `Info: ...`, blue on terminals.
    pub fn format_info(&self, message: &str) -> (r: String)
        ensures
            r@ == self.labeled_view(
                seq!['9', '4', ';', '1'],
                seq!['3', '4'],
                seq!['3', '4'],
                seq!['I', 'n', 'f', 'o'],
                message@,
            ),
    {
        proof {
            reveal_strlit("94;1");
            reveal_strlit("34");
            reveal_strlit("Info");
            assert("94;1"@ =~= seq!['9', '4', ';', '1']);
            assert("34"@ =~= seq!['3', '4']);
            assert("Info"@ =~= seq!['I', 'n', 'f', 'o']);
        }
        self.labeled("94;1", "34", "34", "Info", message)
    }

    /// Format a success message: `Success: ...`, green on terminals.
    pub fn format_success(&self, message: &str) -> (r: String)
        ensures
            r@ == self.labeled_view(
                seq!['9', '2', ';', '1'],
                seq!['3', '2'],
                seq!['3', '2'],
                seq!['S', 'u', 'c', 'c', 'e', 's', 's'],
                message@,
            ),
    {
        proof {
            reveal_strlit("92;1");
            reveal_strlit("32");
            reveal_strlit("Success");
            assert("92;1"@ =~= seq!['9', '2', ';', '1']);
            assert("32"@ =~= seq!['3', '2']);
            assert("Success"@ =~= seq!['S', 'u', 'c', 'c', 'e', 's', 's']);
        }
        self.labeled("92;1", "32", "32", "Success", message)
    }

    /// Format a header: `=== title ===`, magenta on terminals.
    pub fn format_header(&self, title: &str) -> (r: String)
        ensures
            r@ == seq!['=', '=', '=', ' '] + self.styled_spec(
                seq!['9', '5', ';', '1'],
                seq!['3', '5'],
                title@,
            ) + seq![' ', '=', '=', '='],
    {
        proof {
            reveal_strlit("95;1");
            reveal_strlit("35");
            reveal_strlit("=== ");
            reveal_strlit(" ===");
            assert("95;1"@ =~= seq!['9', '5', ';', '1']);
            assert("35"@ =~= seq!['3', '5']);
            assert("=== "@ =~= seq!['=', '=', '=', ' ']);
            assert(" ==="@ =~= seq![' ', '=', '=', '=']);
        }
        let styled = self.style("95;1", "35", title);
        let mut out = String::new();
        out.append("=== ");
        out.append(styled.as_str());
        out.append(" ===");
        proof {
            assert(out@ =~= seq!['=', '=', '=', ' '] + styled@ + seq![' ', '=', '=', '=']);
        }
        out
    }

    /// What the separator line is: a long bright-black rule in colorized
    /// mode, a shorter one in concise mode, 40 dashes otherwise.
    pub open spec fn separator_spec(&self) -> Seq<char> {
        if self.mode_spec() == OutputMode::Colorized && self.terminal_spec() {
            ansi_wrap(seq!['9', '0'], Seq::new(80, |i: int| '\u{2500}'))
        } else if self.mode_spec() == OutputMode::Concise && self.terminal_spec() {
            ansi_wrap(seq!['3', '0'], Seq::new(40, |i: int| '\u{2500}'))
        } else {
            Seq::new(40, |i: int| '-')
        }
    }

    /// Format a separator line.
    pub fn format_separator(&self) -> (r: String)
        ensures
            r@ == self.separator_spec(),
    {
        proof {
            reveal_strlit("90");
            reveal_strlit("30");
            assert("90"@ =~= seq!['9', '0']);
            assert("30"@ =~= seq!['3', '0']);
        }
        if self.is_terminal && (match self.mode {
            OutputMode::Colorized => true,
            _ => false,
        }) {
            let bar = repeat_char('\u{2500}', 80);
            self.style("90", "90", bar.as_str())
        } else if self.is_terminal && (match self.mode {
            OutputMode::Concise => true,
            _ => false,
        }) {
            let bar = repeat_char('\u{2500}', 40);
            self.style("30", "30", bar.as_str())
        } else {
            repeat_char('-', 40)
        }
    }

    /// What a full window entry line is: `index: id(name)` in concise mode,
    /// with geometry and attributes appended otherwise, each part styled;
    /// diff-highlighted when asked.
    pub open spec fn window_entry_spec(
        &self,
        index: nat,
        id: u32,
        name: Seq<char>,
        geom: Seq<char>,
        attrs: Seq<char>,
        is_diff: bool,
    ) -> Seq<char> {
        let fid = self.styled_spec(seq!['9', '4', ';', '1'], seq!['3', '4'], id_hex_seq(id));
        let fname = self.styled_spec(seq!['9', '6'], seq!['3', '6'], name);
        let fgeom = self.styled_spec(seq!['9', '1'], seq!['3', '1'], geom);
        let fattrs = self.styled_spec(seq!['9', '2'], seq!['3', '2'], attrs);
        let line = if self.mode_spec() == OutputMode::Concise {
            dec_seq(index) + seq![':', ' '] + fid + seq!['('] + fname + seq![')']
        } else {
            dec_seq(index) + seq![':', ' '] + fid + seq!['('] + fname + seq![')', ' '] + fgeom
                + seq![' '] + fattrs
        };
        if is_diff {
            self.diff_line_spec(line)
        } else {
            line
        }
    }

    /// Format a complete window entry.
    pub fn format_window_entry(
        &self,
        index: usize,
        id: u32,
        name: &str,
        geom: &str,
        attrs: &str,
        is_diff: bool,
    ) -> (r: String)
        ensures
            r@ == self.window_entry_spec(index as nat, id, name@, geom@, attrs@, is_diff),
    {
        proof {
            reveal_strlit(": ");
            reveal_strlit("(");
            reveal_strlit(")");
            reveal_strlit(") ");
            reveal_strlit(" ");
            assert(": "@ =~= seq![':', ' ']);
            assert("("@ =~= seq!['(']);
            assert(")"@ =~= seq![')']);
            assert(") "@ =~= seq![')', ' ']);
            assert(" "@ =~= seq![' ']);
        }
        let fid = self.format_window_id(id);
        let fname = self.format_window_name(name);
        let idx = dec_string(index as u64);
        let mut line = String::new();
        line.append(idx.as_str());
        line.append(": ");
        line.append(fid.as_str());
        line.append("(");
        line.append(fname.as_str());
        let concise = match self.mode {
            OutputMode::Concise => true,
            _ => false,
        };
        if concise {
            line.append(")");
        } else {
            let fgeom = self.format_geometry(geom);
            let fattrs = self.format_attributes(attrs);
            line.append(") ");
            line.append(fgeom.as_str());
            line.append(" ");
            line.append(fattrs.as_str());
        }
        proof {
            assert(line@ =~= ({
                let fid2 = self.styled_spec(seq!['9', '4', ';', '1'], seq!['3', '4'], id_hex_seq(
                    id,
                ));
                let fname2 = self.styled_spec(seq!['9', '6'], seq!['3', '6'], name@);
                let fgeom2 = self.styled_spec(seq!['9', '1'], seq!['3', '1'], geom@);
                let fattrs2 = self.styled_spec(seq!['9', '2'], seq!['3', '2'], attrs@);
                if self.mode_spec() == OutputMode::Concise {
                    dec_seq(index as nat) + seq![':', ' '] + fid2 + seq!['('] + fname2 + seq![')']
                } else {
                    dec_seq(index as nat) + seq![':', ' '] + fid2 + seq!['('] + fname2 + seq![
                        ')',
                        ' ',
                    ] + fgeom2 + seq![' '] + fattrs2
                }
            }));
        }
        if is_diff {
            self.format_diff_line(line.as_str())
        } else {
            line
        }
    }

    /// Format a statistics line: `label: value`, the label bold white and the
    /// value yellow on terminals.
    pub fn format_stats(&self, label: &str, value: &str) -> (r: String)
        ensures
            r@ == self.labeled_view(
                seq!['9', '7', ';', '1'],
                seq!['3', '7'],
                seq!['9', '3'],
                label@,
                value@,
            ) || (self.mode_spec() == OutputMode::Concise && self.terminal_spec() && r@
                == ansi_wrap(seq!['3', '7'], label@) + seq![':', ' '] + ansi_wrap(
                seq!['3', '3'],
                value@,
            )),
    {
        proof {
            reveal_strlit("97;1");
            reveal_strlit("93");
            reveal_strlit("37");
            reveal_strlit("33");
            reveal_strlit(": ");
            assert("97;1"@ =~= seq!['9', '7', ';', '1']);
            assert("93"@ =~= seq!['9', '3']);
            assert("37"@ =~= seq!['3', '7']);
            assert("33"@ =~= seq!['3', '3']);
            assert(": "@ =~= seq![':', ' ']);
        }
        let mut out = String::new();
        if self.is_terminal {
            match self.mode {
                OutputMode::Colorized => {
                    let l = paint("97;1", label);
                    let v = paint("93", value);
                    out.append(l.as_str());
                    out.append(": ");
                    out.append(v.as_str());
                },
                OutputMode::Concise => {
                    let l = paint("37", label);
                    let v = paint("33", value);
                    out.append(l.as_str());
                    out.append(": ");
                    out.append(v.as_str());
                },
                OutputMode::NoColor => {
                    out.append(label);
                    out.append(": ");
                    out.append(value);
                },
            }
        } else {
            out.append(label);
            out.append(": ");
            out.append(value);
        }
        proof {
            assert(out@ == self.labeled_view(
                seq!['9', '7', ';', '1'],
                seq!['3', '7'],
                seq!['9', '3'],
                label@,
                value@,
            ) || (self.mode_spec() == OutputMode::Concise && self.terminal_spec() && out@
                == ansi_wrap(seq!['3', '7'], label@) + seq![':', ' '] + ansi_wrap(
                seq!['3', '3'],
                value@,
            ))) by {
                if self.mode_spec() == OutputMode::Concise && self.terminal_spec() {
                    assert(out@ =~= ansi_wrap(seq!['3', '7'], label@) + seq![':', ' ']
                        + ansi_wrap(seq!['3', '3'], value@));
                } else {
                    assert(out@ =~= self.labeled_view(
                        seq!['9', '7', ';', '1'],
                        seq!['3', '7'],
                        seq!['9', '3'],
                        label@,
                        value@,
                    ));
                }
            }
        }
        out
    }

    /// Format a key-value pair: `key: value`, the key (bright) white on
    /// terminals.
    pub fn format_key_value(&self, key: &str, value: &str) -> (r: String)
        ensures
            r@ == self.labeled_view(
                seq!['9', '7'],
                seq!['3', '7'],
                seq!['3', '7'],
                key@,
                value@,
            ),
    {
        proof {
            reveal_strlit("97");
            reveal_strlit("37");
            assert("97"@ =~= seq!['9', '7']);
            assert("37"@ =~= seq!['3', '7']);
        }
        self.labeled("97", "37", "37", key, value)
    }


    /// What the joined header line is: the headers separated by ` | `.
    pub open spec fn joined_headers(hs: Seq<Seq<char>>) -> Seq<char>
        decreases hs.len(),
    {
        if hs.len() == 0 {
            Seq::empty()
        } else if hs.len() == 1 {
            hs[0]
        } else {
            hs[0] + seq![' ', '|', ' '] + Self::joined_headers(hs.skip(1))
        }
    }

    /// What a table header is: the joined header line, then a rule of its
    /// length, the two styled on terminals.
    pub open spec fn table_header_spec(&self, hs: Seq<Seq<char>>) -> Seq<char> {
        let line = Self::joined_headers(hs);
        if self.mode_spec() == OutputMode::Colorized && self.terminal_spec() {
            ansi_wrap(seq!['9', '7', ';', '1', ';', '4'], line) + seq!['\n'] + ansi_wrap(
                seq!['9', '0'],
                Seq::new(line.len(), |i: int| '\u{2500}'),
            )
        } else if self.mode_spec() == OutputMode::Concise && self.terminal_spec() {
            ansi_wrap(seq!['3', '7', ';', '1'], line) + seq!['\n'] + Seq::new(
                line.len(),
                |i: int| '-',
            )
        } else {
            line + seq!['\n'] + Seq::new(line.len(), |i: int| '-')
        }
    }

    /// Create a styled table header: the column names joined by ` | `, a rule
    /// of matching length beneath.
    #[verifier::loop_isolation(false)]
    pub fn format_table_header(&self, headers: &Vec<String>) -> (r: String)
        ensures
            r@ == self.table_header_spec(headers@.map_values(|h: String| h@)),
    {
        proof {
            reveal_strlit(" | ");
            reveal_strlit("\n");
            reveal_strlit("97;1;4");
            reveal_strlit("37;1");
            reveal_strlit("90");
            assert(" | "@ =~= seq![' ', '|', ' ']);
            assert("\n"@ =~= seq!['\n']);
            assert("97;1;4"@ =~= seq!['9', '7', ';', '1', ';', '4']);
            assert("37;1"@ =~= seq!['3', '7', ';', '1']);
            assert("90"@ =~= seq!['9', '0']);
        }
        let ghost hs = headers@.map_values(|h: String| h@);
        let mut line = String::new();
        let mut i: usize = 0;
        proof {
            assert(hs.skip(0) =~= hs);
            if hs.len() == 0 {
                assert(line@ =~= Self::joined_headers(hs));
            }
        }
        while i < headers.len()
            invariant
                0 <= i <= headers.len(),
                headers.len() > 0 ==> i <= headers.len(),
                Self::joined_headers(hs) == line@ + (if i < headers.len() {
                    (if i > 0 {
                        seq![' ', '|', ' ']
                    } else {
                        Seq::<char>::empty()
                    }) + Self::joined_headers(hs.skip(i as int))
                } else {
                    Seq::<char>::empty()
                }),
            decreases headers.len() - i,
        {
            proof {
                assert(hs.skip(i as int)[0] == hs[i as int]);
                assert(hs.skip(i as int).skip(1) =~= hs.skip(i as int + 1));
            }
            if i > 0 {
                line.append(" | ");
            }
            line.append(headers[i].as_str());
            i = i + 1;
            proof {
                if i < headers.len() {
                    assert(Self::joined_headers(hs) =~= line@ + (seq![' ', '|', ' ']
                        + Self::joined_headers(hs.skip(i as int))));
                } else {
                    assert(Self::joined_headers(hs) =~= line@);
                }
            }
        }
        let n = str_chars(line.as_str()).len();
        let colorized = self.is_terminal && (match self.mode {
            OutputMode::Colorized => true,
            _ => false,
        });
        let concise = self.is_terminal && (match self.mode {
            OutputMode::Concise => true,
            _ => false,
        });
        let mut out = String::new();
        if colorized {
            let styled = paint("97;1;4", line.as_str());
            let bar = repeat_char('\u{2500}', n);
            let sbar = paint("90", bar.as_str());
            out.append(styled.as_str());
            out.append("\n");
            out.append(sbar.as_str());
        } else if concise {
            let styled = paint("37;1", line.as_str());
            let bar = repeat_char('-', n);
            out.append(styled.as_str());
            out.append("\n");
            out.append(bar.as_str());
        } else {
            let bar = repeat_char('-', n);
            out.append(line.as_str());
            out.append("\n");
            out.append(bar.as_str());
        }
        proof {
            assert(out@ =~= self.table_header_spec(hs));
        }
        out
    }

    /// Check whether output supports colors.
    pub fn supports_color(&self) -> (r: bool)
        ensures
            r == (self.terminal_spec() && self.mode_spec() != OutputMode::NoColor),
    {
        self.is_terminal && (match self.mode {
            OutputMode::NoColor => false,
            _ => true,
        })
    }

    /// What truncation yields: the text itself when it fits the width,
    /// otherwise its first `width - 3` characters followed by `...`.
    pub open spec fn truncate_spec(&self, text: Seq<char>, width: nat) -> Seq<char> {
        if text.len() <= width {
            text
        } else {
            let keep = if width >= 3 {
                (width - 3) as nat
            } else {
                0nat
            };
            text.take(keep as int) + seq!['.', '.', '.']
        }
    }

    /// Truncate text to a width, 80 columns when none is given.
    pub fn truncate_to_width(&self, text: &str, max_width: Option<usize>) -> (r: String)
        ensures
            r@ == self.truncate_spec(
                text@,
                match max_width {
                    Some(w) => w as nat,
                    None => 80,
                },
            ),
    {
        let width: usize = match max_width {
            Some(w) => w,
            None => 80,
        };
        let cs = str_chars(text);
        if cs.len() <= width {
            text.to_owned()
        } else {
            let keep: usize = if width >= 3 {
                width - 3
            } else {
                0
            };
            let mut out: Vec<char> = Vec::new();
            let mut i: usize = 0;
            while i < keep
                invariant
                    0 <= i <= keep,
                    keep <= cs.len(),
                    cs@ == text@,
                    out@ == text@.take(i as int),
                decreases keep - i,
            {
                out.push(cs[i]);
                proof {
                    assert(text@.take(i as int).push(text@[i as int]) =~= text@.take(i as int
                        + 1));
                }
                i = i + 1;
            }
            let mut s = chars_to_string(&out);
            s.append("...");
            proof {
                reveal_strlit("...");
                assert("..."@ =~= seq!['.', '.', '.']);
                assert(s@ =~= self.truncate_spec(text@, width as nat));
            }
            s
        }
    }
}

/// A string of `n` copies of `c`.
fn repeat_char(c: char, n: usize) -> (r: String)
    ensures
        r@ == Seq::new(n as nat, |i: int| c),
{
    let mut out: Vec<char> = Vec::new();
    let mut i: usize = 0;
    while i < n
        invariant
            0 <= i <= n,
            out@ == Seq::new(i as nat, |k: int| c),
        decreases n - i,
    {
        out.push(c);
        proof {
            assert(Seq::new(i as nat, |k: int| c).push(c) =~= Seq::new(i as nat + 1, |k: int| c));
        }
        i = i + 1;
    }
    chars_to_string(&out)
}

} // verus!
