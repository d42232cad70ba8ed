//! The report as printed: every line as a list of styled pieces of text.
//! Only the terminal styling itself is left to the caller.

use vstd::prelude::*;

use crate::analysis::FrameReport;
use crate::decode::{DecodedField, DecodedFieldSpec, DecodedSpec, DecodedValue, fields_spec, opt_string_view, value_spec};
use crate::display::{
    dec_digits, dump_lines, field_key, field_key_text, hex_dump, hex_lower_char, hex_upper_char, label_text,
    push_decimal, trim_end,
};
use crate::proto::CsHead;
use crate::tcp::StreamKey;
use crate::text::{chars_of, string_from_chars};

verus! {

broadcast use vstd::string::group_string_axioms;

/// How a piece of text is shown on a terminal.
#[derive(Debug, Clone, Copy, PartialEq, Eq, Structural)]
pub enum Style {
    Plain,
    Bold,
    Dimmed,
    BoldDimmed,
    Cyan,
    BoldCyan,
    Yellow,
    BoldYellow,
    Green,
    BoldGreen,
    Red,
    BoldRed,
    ItalicRed,
    BoldBlue,
    /// Green, written as a quoted string literal with escapes (`{:?}`).
    Quoted,
}

/// A piece of an output line.
#[derive(Debug)]
pub struct Piece {
    pub text: String,
    pub style: Style,
}

impl View for Piece {
    type V = (Seq<char>, Style);

    open spec fn view(&self) -> (Seq<char>, Style) {
        (self.text@, self.style)
    }
}

/// The mathematical value of one output line.
pub open spec fn line_view(line: Seq<Piece>) -> Seq<(Seq<char>, Style)> {
    line.map_values(|p: Piece| p@)
}

/// The mathematical value of output lines.
pub open spec fn lines_view(lines: Seq<Vec<Piece>>) -> Seq<Seq<(Seq<char>, Style)>> {
    lines.map_values(|l: Vec<Piece>| line_view(l@))
}

/// Width of the rules drawn across the output.
pub const WIDTH: usize = 70;

/// `n` copies of `c`.
pub open spec fn repeat(c: char, n: nat) -> Seq<char> {
    Seq::new(n, |i: int| c)
}

/// A horizontal rule of `WIDTH` copies of `c` in `style`.
pub open spec fn rule_line(c: char, style: Style) -> Seq<(Seq<char>, Style)> {
    seq![(repeat(c, WIDTH as nat), style)]
}

fn lit(s: &str, style: Style) -> (p: Piece)
    ensures
        p@ == (s@, style),
{
    Piece { text: s.to_owned(), style }
}

fn owned(chars: &Vec<char>, style: Style) -> (p: Piece)
    ensures
        p@ == (chars@, style),
{
    Piece { text: string_from_chars(chars.as_slice()), style }
}

fn push_piece(line: &mut Vec<Piece>, p: Piece)
    ensures
        line_view(final(line)@) == line_view(old(line)@).push(p@),
{
    let ghost v = p@;
    line.push(p);
    assert(line_view(line@) =~= line_view(old(line)@).push(v));
}

fn append_pieces(line: &mut Vec<Piece>, more: &mut Vec<Piece>)
    ensures
        line_view(final(line)@) == line_view(old(line)@) + line_view(old(more)@),
{
    line.append(more);
    assert(line_view(line@) =~= line_view(old(line)@) + line_view(old(more)@));
}

fn push_line(out: &mut Vec<Vec<Piece>>, line: Vec<Piece>)
    ensures
        lines_view(final(out)@) == lines_view(old(out)@).push(line_view(line@)),
{
    let ghost v = line_view(line@);
    out.push(line);
    assert(lines_view(out@) =~= lines_view(old(out)@).push(v));
}

fn push_str(out: &mut Vec<char>, s: &str)
    ensures
        final(out)@ == old(out)@ + s@,
{
    let chars = chars_of(s);
    let mut i: usize = 0;
    while i < chars.len()
        invariant
            i <= chars.len(),
            chars@ == s@,
            out@ == old(out)@ + s@.take(i as int),
        decreases chars.len() - i,
    {
        out.push(chars[i]);
        i += 1;
        assert(out@ =~= old(out)@ + s@.take(i as int));
    }
    assert(s@.take(i as int) =~= s@);
}

fn push_repeat(out: &mut Vec<char>, c: char, n: usize)
    ensures
        final(out)@ == old(out)@ + repeat(c, n as nat),
{
    let mut i: usize = 0;
    while i < n
        invariant
            i <= n,
            out@ == old(out)@ + repeat(c, i as nat),
        decreases n - i,
    {
        out.push(c);
        i += 1;
        assert(out@ =~= old(out)@ + repeat(c, i as nat));
    }
}

fn rule(c: char, style: Style) -> (line: Vec<Piece>)
    ensures
        line_view(line@) == rule_line(c, style),
{
    let mut chars: Vec<char> = Vec::new();
    push_repeat(&mut chars, c, WIDTH);
    assert(chars@ =~= repeat(c, WIDTH as nat));
    let mut line: Vec<Piece> = Vec::new();
    push_piece(&mut line, owned(&chars, style));
    assert(line_view(line@) =~= rule_line(c, style));
    line
}

/// `label` followed by the decimal form of `n`.
pub open spec fn with_number(label: Seq<char>, n: nat) -> Seq<char> {
    label + dec_digits(n)
}

fn numbered(label: &str, n: u64, style: Style) -> (p: Piece)
    ensures
        p@ == (with_number(label@, n as nat), style),
{
    let mut chars: Vec<char> = Vec::new();
    push_str(&mut chars, label);
    push_decimal(&mut chars, n);
    owned(&chars, style)
}

/// The closing summary of a run.
pub open spec fn summary_text(total: nat, valid: nat, invalid: nat, crc_fail: nat) -> Seq<Seq<(Seq<char>, Style)>> {
    seq![
        seq![],
        rule_line('═', Style::Cyan),
        seq![
            (" Summary"@, Style::Bold),
            ("  total="@, Style::Plain),
            (dec_digits(total), Style::Bold),
            ("  valid="@, Style::Plain),
            (dec_digits(valid), Style::BoldGreen),
            ("  crc_fail="@, Style::Plain),
            (dec_digits(crc_fail), Style::BoldYellow),
            ("  skipped="@, Style::Plain),
            (dec_digits(invalid), Style::BoldRed),
        ],
        rule_line('═', Style::Cyan),
    ]
}

/// The lines of the closing summary.
pub fn summary_lines(total: usize, valid: usize, invalid: usize, crc_fail: usize) -> (lines: Vec<Vec<Piece>>)
    ensures
        lines_view(lines@) == summary_text(total as nat, valid as nat, invalid as nat, crc_fail as nat),
{
    let mut out: Vec<Vec<Piece>> = Vec::new();
    let empty: Vec<Piece> = Vec::new();
    assert(line_view(empty@) =~= seq![]);
    push_line(&mut out, empty);
    push_line(&mut out, rule('═', Style::Cyan));
    let mut line: Vec<Piece> = Vec::new();
    push_piece(&mut line, lit(" Summary", Style::Bold));
    push_piece(&mut line, lit("  total=", Style::Plain));
    push_piece(&mut line, numbered("", total as u64, Style::Bold));
    push_piece(&mut line, lit("  valid=", Style::Plain));
    push_piece(&mut line, numbered("", valid as u64, Style::BoldGreen));
    push_piece(&mut line, lit("  crc_fail=", Style::Plain));
    push_piece(&mut line, numbered("", crc_fail as u64, Style::BoldYellow));
    push_piece(&mut line, lit("  skipped=", Style::Plain));
    push_piece(&mut line, numbered("", invalid as u64, Style::BoldRed));
    proof {
        reveal_strlit("");
        assert(""@ + dec_digits(total as nat) =~= dec_digits(total as nat));
        assert(""@ + dec_digits(valid as nat) =~= dec_digits(valid as nat));
        assert(""@ + dec_digits(invalid as nat) =~= dec_digits(invalid as nat));
        assert(""@ + dec_digits(crc_fail as nat) =~= dec_digits(crc_fail as nat));
        assert(line_view(line@) =~= summary_text(total as nat, valid as nat, invalid as nat, crc_fail as nat)[2]);
    }
    push_line(&mut out, line);
    push_line(&mut out, rule('═', Style::Cyan));
    assert(lines_view(out@) =~= summary_text(total as nat, valid as nat, invalid as nat, crc_fail as nat));
    out
}

/// `n` spaces.
pub open spec fn spaces(n: nat) -> Seq<char> {
    repeat(' ', n)
}

/// `s` padded with spaces on the right to at least `width` characters
/// (`{:width}`).
pub open spec fn pad_right(s: Seq<char>, width: nat) -> Seq<char> {
    if s.len() >= width {
        s
    } else {
        s + spaces((width - s.len()) as nat)
    }
}

/// The decimal form of a signed integer.
pub open spec fn int_text(v: int) -> Seq<char> {
    if v < 0 {
        seq!['-'] + dec_digits((-v) as nat)
    } else {
        dec_digits(v as nat)
    }
}

/// The last `k` upper-case hex digits of `n`, with leading zeros.
pub open spec fn hex_upper_fixed(n: nat, k: nat) -> Seq<char>
    decreases k,
{
    if k == 0 {
        seq![]
    } else {
        hex_upper_fixed(n / 16, (k - 1) as nat).push(hex_upper_char((n % 16) as int))
    }
}

/// A checksum as `0x` and eight upper-case hex digits (`0x{:08X}`).
pub open spec fn checksum_text(c: u32) -> Seq<char> {
    seq!['0', 'x'] + hex_upper_fixed(c as nat, 8)
}

/// Each byte as two lower-case hex digits, high digit first.
pub open spec fn hex_text(b: Seq<u8>) -> Seq<char>
    decreases b.len(),
{
    if b.len() == 0 {
        seq![]
    } else {
        hex_text(b.drop_last()) + seq![hex_lower_char((b.last() / 16) as int), hex_lower_char((b.last() % 16) as int)]
    }
}

/// `hex::encode`: the bytes of `data` as lower-case hex, two digits per
/// byte, high digit first.  Trusted to write exactly that text.
#[verifier::external_body]
fn hex_encode(data: &[u8]) -> (s: String)
    ensures
        s@ == hex_text(data@),
{
    hex::encode(data)
}

fn push_padded(out: &mut Vec<char>, s: &str, width: usize)
    ensures
        final(out)@ == old(out)@ + pad_right(s@, width as nat),
{
    let chars = chars_of(s);
    let mut padded = chars;
    assert(padded@ =~= s@ + spaces(0));
    while padded.len() < width
        invariant
            padded@.len() >= s@.len(),
            padded@.len() <= if s@.len() >= width { s@.len() } else { width as nat },
            padded@ == s@ + spaces((padded@.len() - s@.len()) as nat),
        decreases width - padded.len(),
    {
        padded.push(' ');
        assert(padded@ =~= s@ + spaces((padded@.len() - s@.len()) as nat));
    }
    assert(padded@ =~= pad_right(s@, width as nat));
    let mut i: usize = 0;
    while i < padded.len()
        invariant
            i <= padded.len(),
            out@ == old(out)@ + padded@.take(i as int),
        decreases padded.len() - i,
    {
        out.push(padded[i]);
        i += 1;
        assert(out@ =~= old(out)@ + padded@.take(i as int));
    }
    assert(padded@.take(i as int) =~= padded@);
}

fn push_int(out: &mut Vec<char>, v: i64)
    ensures
        final(out)@ == old(out)@ + int_text(v as int),
{
    if v < 0 {
        out.push('-');
        let m = v as i128;
        push_decimal(out, (-m) as u64);
        assert(final(out)@ =~= old(out)@ + int_text(v as int));
    } else {
        push_decimal(out, v as u64);
    }
}

fn push_hex_upper_fixed(out: &mut Vec<char>, n: u32, k: usize)
    requires
        k <= 8,
    ensures
        final(out)@ == old(out)@ + hex_upper_fixed(n as nat, k as nat),
    decreases k,
{
    if k > 0 {
        push_hex_upper_fixed(out, n / 16, k - 1);
        let d = (n % 16) as u8;
        out.push(if d < 10 { (d + 48u8) as char } else { (d - 10 + 65u8) as char });
    }
    assert(final(out)@ =~= old(out)@ + hex_upper_fixed(n as nat, k as nat));
}

/// A count of bytes in the form `prefix N B): ` followed by their hex.
pub open spec fn bytes_line(prefix: Seq<char>, b: Seq<u8>) -> Seq<(Seq<char>, Style)> {
    seq![(with_number(prefix, b.len()) + " B): "@, Style::Plain), (hex_text(b), Style::Dimmed)]
}

fn bytes_line_exec(prefix: &str, b: &[u8]) -> (line: Vec<Piece>)
    ensures
        line_view(line@) == bytes_line(prefix@, b@),
{
    let mut chars: Vec<char> = Vec::new();
    push_str(&mut chars, prefix);
    push_decimal(&mut chars, b.len() as u64);
    push_str(&mut chars, " B): ");
    let mut line: Vec<Piece> = Vec::new();
    push_piece(&mut line, owned(&chars, Style::Plain));
    push_piece(&mut line, Piece { text: hex_encode(b), style: Style::Dimmed });
    assert(line_view(line@) =~= bytes_line(prefix@, b@));
    line
}

/// The lines shown for a frame whose head is not a valid CSHead.
pub open spec fn invalid_frame_text(index: nat, head: Seq<u8>, body: Seq<u8>) -> Seq<Seq<(Seq<char>, Style)>> {
    seq![
        seq![],
        seq![
            (with_number("▶ Frame #"@, index), Style::Bold),
            (" "@, Style::Plain),
            ("[invalid / skipped]"@, Style::Red),
        ],
        rule_line('─', Style::Dimmed),
        bytes_line("    head ("@, head),
        bytes_line("    body ("@, body),
    ]
}

/// The lines shown for a frame whose head is not a valid CSHead.
pub fn invalid_frame_lines(frame_index: usize, raw_head: &[u8], raw_body: &[u8]) -> (lines: Vec<Vec<Piece>>)
    ensures
        lines_view(lines@) == invalid_frame_text(frame_index as nat, raw_head@, raw_body@),
{
    let mut out: Vec<Vec<Piece>> = Vec::new();
    let empty: Vec<Piece> = Vec::new();
    assert(line_view(empty@) =~= seq![]);
    push_line(&mut out, empty);
    let mut title: Vec<Piece> = Vec::new();
    push_piece(&mut title, numbered("▶ Frame #", frame_index as u64, Style::Bold));
    push_piece(&mut title, lit(" ", Style::Plain));
    push_piece(&mut title, lit("[invalid / skipped]", Style::Red));
    assert(line_view(title@) =~= invalid_frame_text(frame_index as nat, raw_head@, raw_body@)[1]);
    push_line(&mut out, title);
    push_line(&mut out, rule('─', Style::Dimmed));
    push_line(&mut out, bytes_line_exec("    head (", raw_head));
    push_line(&mut out, bytes_line_exec("    body (", raw_body));
    assert(lines_view(out@) =~= invalid_frame_text(frame_index as nat, raw_head@, raw_body@));
    out
}

/// Number of bytes of the UTF-8 encoding of `c`.
pub open spec fn utf8_width(c: char) -> nat {
    let u = c as u32;
    if u < 0x80 {
        1
    } else if u < 0x800 {
        2
    } else if u < 0x10000 {
        3
    } else {
        4
    }
}

/// Number of bytes of the UTF-8 encoding of `s` (what `str::len` counts).
pub open spec fn utf8_len(s: Seq<char>) -> nat
    decreases s.len(),
{
    if s.len() == 0 {
        0
    } else {
        utf8_len(s.drop_last()) + utf8_width(s.last())
    }
}

fn utf8_len_exec(chars: &Vec<char>) -> (n: u128)
    ensures
        n == utf8_len(chars@),
        n <= 4 * chars@.len(),
{
    let mut n: u128 = 0;
    let mut i: usize = 0;
    while i < chars.len()
        invariant
            i <= chars.len(),
            n == utf8_len(chars@.take(i as int)),
            n <= 4 * i,
        decreases chars.len() - i,
    {
        let u = chars[i] as u32;
        let w: u128 = if u < 0x80 {
            1
        } else if u < 0x800 {
            2
        } else if u < 0x10000 {
            3
        } else {
            4
        };
        assert(chars@.take(i + 1).drop_last() =~= chars@.take(i as int));
        n = n + w;
        i += 1;
    }
    assert(chars@.take(i as int) =~= chars@);
    n
}

/// The text in the box above a stream's frames.
pub open spec fn header_label(key: StreamKey, frames: nat) -> Seq<char> {
    "  TCP Stream  "@ + label_text(key) + "  ("@ + dec_digits(frames) + " frames)  "@
}

/// The box drawn above a stream's frames.  The box is `WIDTH + 2` wide,
/// wider when the label needs it, and the label is padded to `WIDTH`;
/// widths count the label's UTF-8 bytes.
pub open spec fn stream_header_text(key: StreamKey, frames: nat) -> Seq<Seq<(Seq<char>, Style)>> {
    let label = header_label(key, frames);
    let bytes = utf8_len(label);
    let pad = if bytes < WIDTH {
        (WIDTH - bytes) as nat
    } else {
        0
    };
    let bar = repeat(
        '═',
        if bytes + 2 > WIDTH + 2 {
            (bytes + 2) as nat
        } else {
            (WIDTH + 2) as nat
        },
    );
    seq![
        seq![],
        seq![("╔"@, Style::Cyan), (bar, Style::Cyan), ("╗"@, Style::Cyan)],
        seq![
            ("║"@, Style::Cyan),
            ("  "@, Style::Plain),
            (label, Style::BoldCyan),
            (spaces(pad), Style::Plain),
            ("║"@, Style::Cyan),
        ],
        seq![("╚"@, Style::Cyan), (bar, Style::Cyan), ("╝"@, Style::Cyan)],
    ]
}

/// The box drawn above the frames of stream `key`.
pub fn stream_header_lines(key: &StreamKey, frame_count: usize) -> (lines: Vec<Vec<Piece>>)
    ensures
        lines_view(lines@) == stream_header_text(*key, frame_count as nat),
{
    let mut chars: Vec<char> = Vec::new();
    push_str(&mut chars, "  TCP Stream  ");
    let key_label = key.label();
    push_str(&mut chars, key_label.as_str());
    push_str(&mut chars, "  (");
    push_decimal(&mut chars, frame_count as u64);
    push_str(&mut chars, " frames)  ");
    assert(chars@ =~= header_label(*key, frame_count as nat));
    let bytes = utf8_len_exec(&chars);
    let label = string_from_chars(chars.as_slice());
    let ghost want = stream_header_text(*key, frame_count as nat);

    let mut bar: Vec<char> = Vec::new();
    assert(bar@ =~= repeat('═', 0));
    assert(chars.len() <= u64::MAX);
    assert(bytes <= 4 * (u64::MAX as int));
    let limit = bytes + 2;
    while (bar.len() as u128) < limit
        invariant
            bar@ == repeat('═', bar@.len()),
            bar@.len() <= limit,
            limit == bytes + 2,
        decreases limit - bar.len(),
    {
        bar.push('═');
        assert(bar@ =~= repeat('═', bar@.len()));
    }
    while bar.len() < WIDTH + 2
        invariant
            bar@ == repeat('═', bar@.len()),
            bar@.len() >= bytes + 2,
            bar@.len() <= if bytes + 2 > WIDTH + 2 { bytes + 2 } else { WIDTH + 2 },
        decreases WIDTH + 2 - bar.len(),
    {
        bar.push('═');
        assert(bar@ =~= repeat('═', bar@.len()));
    }
    assert(bar@ =~= want[1][1].0);
    let mut pad: Vec<char> = Vec::new();
    push_repeat(&mut pad, ' ', if bytes < WIDTH as u128 { (WIDTH as u128 - bytes) as usize } else { 0 });

    let mut out: Vec<Vec<Piece>> = Vec::new();
    let empty: Vec<Piece> = Vec::new();
    assert(line_view(empty@) =~= seq![]);
    push_line(&mut out, empty);
    let mut top: Vec<Piece> = Vec::new();
    push_piece(&mut top, lit("╔", Style::Cyan));
    push_piece(&mut top, owned(&bar, Style::Cyan));
    push_piece(&mut top, lit("╗", Style::Cyan));
    assert(line_view(top@) =~= want[1]);
    push_line(&mut out, top);
    let mut middle: Vec<Piece> = Vec::new();
    push_piece(&mut middle, lit("║", Style::Cyan));
    push_piece(&mut middle, lit("  ", Style::Plain));
    push_piece(&mut middle, Piece { text: label, style: Style::BoldCyan });
    push_piece(&mut middle, owned(&pad, Style::Plain));
    push_piece(&mut middle, lit("║", Style::Cyan));
    assert(line_view(middle@) =~= want[2]);
    push_line(&mut out, middle);
    let mut bottom: Vec<Piece> = Vec::new();
    push_piece(&mut bottom, lit("╚", Style::Cyan));
    push_piece(&mut bottom, owned(&bar, Style::Cyan));
    push_piece(&mut bottom, lit("╝", Style::Cyan));
    assert(line_view(bottom@) =~= want[3]);
    push_line(&mut out, bottom);
    assert(lines_view(out@) =~= want);
    out
}

/// `true` or `false`.
pub open spec fn bool_text(b: bool) -> Seq<char> {
    if b {
        "true"@
    } else {
        "false"@
    }
}

/// How a body value is shown: numbers in yellow, booleans green or red,
/// text quoted, bytes as their count and hex.
pub open spec fn value_pieces(v: DecodedSpec) -> Seq<(Seq<char>, Style)> {
    match v {
        DecodedSpec::Uint(n) => seq![(dec_digits(n as nat), Style::Yellow)],
        DecodedSpec::Int(n) => seq![(int_text(n as int), Style::Yellow)],
        DecodedSpec::Bool(b) => if b {
            seq![("true"@, Style::Green)]
        } else {
            seq![("false"@, Style::Red)]
        },
        DecodedSpec::Text(t) => seq![(t, Style::Quoted)],
        DecodedSpec::Bytes(b) => seq![
            (with_number("<bytes "@, b.len()) + " B> "@, Style::Plain),
            (hex_text(b), Style::Dimmed),
        ],
        DecodedSpec::Nested(_) => seq![("(nested)"@, Style::Plain)],
    }
}

fn value_pieces_exec(v: &DecodedValue) -> (line: Vec<Piece>)
    ensures
        line_view(line@) == value_pieces(value_spec(*v)),
{
    let mut line: Vec<Piece> = Vec::new();
    match v {
        DecodedValue::Uint(n) => {
            push_piece(&mut line, numbered("", *n, Style::Yellow));
            proof {
                reveal_strlit("");
                assert(""@ + dec_digits(*n as nat) =~= dec_digits(*n as nat));
            }
        },
        DecodedValue::Int(n) => {
            let mut chars: Vec<char> = Vec::new();
            push_int(&mut chars, *n);
            assert(chars@ =~= int_text(*n as int));
            push_piece(&mut line, owned(&chars, Style::Yellow));
        },
        DecodedValue::Bool(b) => {
            if *b {
                push_piece(&mut line, lit("true", Style::Green));
            } else {
                push_piece(&mut line, lit("false", Style::Red));
            }
        },
        DecodedValue::Text(t) => {
            push_piece(&mut line, Piece { text: t.clone(), style: Style::Quoted });
        },
        DecodedValue::Bytes(b) => {
            let mut chars: Vec<char> = Vec::new();
            push_str(&mut chars, "<bytes ");
            push_decimal(&mut chars, b.len() as u64);
            push_str(&mut chars, " B> ");
            push_piece(&mut line, owned(&chars, Style::Plain));
            push_piece(&mut line, Piece { text: hex_encode(b.as_slice()), style: Style::Dimmed });
        },
        DecodedValue::Nested(_) => {
            push_piece(&mut line, lit("(nested)", Style::Plain));
        },
    }
    assert(line_view(line@) =~= value_pieces(value_spec(*v)));
    line
}

/// The lines of body fields indented by `indent`.  A nested message is
/// shown as its key and a colon, then its own fields two columns further
/// in; any other field as its key and a colon padded to 30 columns, two
/// spaces and its value.
pub open spec fn fields_lines(fs: Seq<DecodedFieldSpec>, indent: nat) -> Seq<Seq<(Seq<char>, Style)>>
    decreases fs,
{
    if fs.len() == 0 {
        seq![]
    } else {
        let f = fs[fs.len() - 1];
        let key = field_key_text(f.number, f.name);
        let before = fields_lines(fs.subrange(0, fs.len() - 1), indent);
        match f.value {
            DecodedSpec::Nested(inner) => before.push(
                seq![(spaces(indent), Style::Plain), (key, Style::Dimmed), (":"@, Style::Plain)],
            ) + fields_lines(inner, indent + 2),
            _ => before.push(
                seq![
                    (spaces(indent), Style::Plain),
                    (pad_right(key.push(':'), 30), Style::Dimmed),
                    ("  "@, Style::Plain),
                ] + value_pieces(f.value),
            ),
        }
    }
}

fn pad_vec(v: &mut Vec<char>, width: usize)
    ensures
        final(v)@ == pad_right(old(v)@, width as nat),
{
    let ghost s = v@;
    assert(v@ =~= s + spaces(0));
    while v.len() < width
        invariant
            v@.len() >= s.len(),
            v@.len() <= if s.len() >= width { s.len() } else { width as nat },
            v@ == s + spaces((v@.len() - s.len()) as nat),
        decreases width - v.len(),
    {
        v.push(' ');
        assert(v@ =~= s + spaces((v@.len() - s.len()) as nat));
    }
    assert(v@ =~= pad_right(s, width as nat));
}

proof fn lemma_fields_spec_prefix(fs: Seq<DecodedField>, i: int)
    requires
        0 <= i < fs.len(),
    ensures
        fields_spec(fs.subrange(0, i + 1)) == fields_spec(fs.subrange(0, i)).push(
            DecodedFieldSpec {
                number: fs[i].number,
                name: crate::decode::opt_string_view(fs[i].name),
                value: value_spec(fs[i].value),
            },
        ),
{
    assert(fs.subrange(0, i + 1).subrange(0, i) =~= fs.subrange(0, i));
}

proof fn lemma_fields_lines_push(fs: Seq<DecodedFieldSpec>, f: DecodedFieldSpec, indent: nat)
    ensures
        fields_lines(fs.push(f), indent) == ({
            let key = field_key_text(f.number, f.name);
            match f.value {
                DecodedSpec::Nested(inner) => fields_lines(fs, indent).push(
                    seq![(spaces(indent), Style::Plain), (key, Style::Dimmed), (":"@, Style::Plain)],
                ) + fields_lines(inner, indent + 2),
                _ => fields_lines(fs, indent).push(
                    seq![
                        (spaces(indent), Style::Plain),
                        (pad_right(key.push(':'), 30), Style::Dimmed),
                        ("  "@, Style::Plain),
                    ] + value_pieces(f.value),
                ),
            }
        }),
{
    assert(fs.push(f).subrange(0, fs.len() as int) =~= fs);
}

fn push_field_lines(out: &mut Vec<Vec<Piece>>, fields: &Vec<DecodedField>, pad: &Vec<char>)
    requires
        pad@ == spaces(pad@.len()),
    ensures
        lines_view(final(out)@) == lines_view(old(out)@) + fields_lines(fields_spec(fields@), pad@.len()),
    decreases fields@,
{
    let mut i: usize = 0;
    assert(fields_lines(fields_spec(fields@.subrange(0, 0)), pad@.len()) =~= seq![]) by {
        assert(fields@.subrange(0, 0) =~= seq![]);
    }
    assert(lines_view(out@) =~= lines_view(old(out)@) + seq![]);
    while i < fields.len()
        invariant
            i <= fields.len(),
            pad@ == spaces(pad@.len()),
            lines_view(out@) == lines_view(old(out)@) + fields_lines(fields_spec(fields@.subrange(0, i as int)), pad@.len()),
        decreases fields.len() - i,
    {
        let f = &fields[i];
        let ghost before = lines_view(out@);
        let ghost prefix = fields_spec(fields@.subrange(0, i as int));
        let ghost fspec = DecodedFieldSpec {
            number: f.number,
            name: crate::decode::opt_string_view(f.name),
            value: value_spec(f.value),
        };
        proof {
            lemma_fields_spec_prefix(fields@, i as int);
            lemma_fields_lines_push(prefix, fspec, pad@.len());
        }
        let key = field_key(f);
        let key_chars = chars_of(key.as_str());
        match &f.value {
            DecodedValue::Nested(inner) => {
                let mut line: Vec<Piece> = Vec::new();
                push_piece(&mut line, owned(pad, Style::Plain));
                push_piece(&mut line, owned(&key_chars, Style::Dimmed));
                push_piece(&mut line, lit(":", Style::Plain));
                let ghost indent = pad@.len();
                let ghost lv = seq![
                    (spaces(indent), Style::Plain),
                    (field_key_text(fspec.number, fspec.name), Style::Dimmed),
                    (":"@, Style::Plain),
                ];
                assert(line_view(line@) =~= lv);
                push_line(out, line);
                let mut deeper: Vec<char> = Vec::new();
                push_repeat(&mut deeper, ' ', pad.len());
                deeper.push(' ');
                deeper.push(' ');
                assert(deeper@ =~= spaces(deeper@.len()));
                push_field_lines(out, inner, &deeper);
                proof {
                    let inner_lines = fields_lines(fields_spec(inner@), indent + 2);
                    assert(fspec.value == DecodedSpec::Nested(fields_spec(inner@)));
                    assert(fields_spec(fields@.subrange(0, i + 1)) == prefix.push(fspec));
                    assert(fields_lines(prefix.push(fspec), indent) == fields_lines(prefix, indent).push(lv) + inner_lines);
                    assert(lines_view(out@) == before.push(lv) + inner_lines);
                    assert(lines_view(out@) =~= lines_view(old(out)@) + fields_lines(fields_spec(fields@.subrange(0, i + 1)), indent));
                }
            },
            _ => {
                let mut keyed = key_chars;
                keyed.push(':');
                pad_vec(&mut keyed, 30);
                let mut line: Vec<Piece> = Vec::new();
                push_piece(&mut line, owned(pad, Style::Plain));
                push_piece(&mut line, owned(&keyed, Style::Dimmed));
                push_piece(&mut line, lit("  ", Style::Plain));
                let mut values = value_pieces_exec(&f.value);
                append_pieces(&mut line, &mut values);
                let ghost indent = pad@.len();
                let ghost lv = seq![
                    (spaces(indent), Style::Plain),
                    (pad_right(field_key_text(fspec.number, fspec.name).push(':'), 30), Style::Dimmed),
                    ("  "@, Style::Plain),
                ] + value_pieces(fspec.value);
                assert(line_view(line@) =~= lv);
                push_line(out, line);
                proof {
                    assert(!(fspec.value is Nested));
                    assert(fields_spec(fields@.subrange(0, i + 1)) == prefix.push(fspec));
                    assert(fields_lines(prefix.push(fspec), indent) == fields_lines(prefix, indent).push(lv));
                    assert(lines_view(out@) =~= lines_view(old(out)@) + fields_lines(fields_spec(fields@.subrange(0, i + 1)), indent));
                }
            },
        }
        i += 1;
    }
    assert(fields@.subrange(0, i as int) =~= fields@);
}

fn decimal_piece(n: u64, style: Style) -> (p: Piece)
    ensures
        p@ == (dec_digits(n as nat), style),
{
    let mut chars: Vec<char> = Vec::new();
    push_decimal(&mut chars, n);
    assert(chars@ =~= dec_digits(n as nat));
    owned(&chars, style)
}

fn append_lines(out: &mut Vec<Vec<Piece>>, more: &mut Vec<Vec<Piece>>)
    ensures
        lines_view(final(out)@) == lines_view(old(out)@) + lines_view(old(more)@),
{
    out.append(more);
    assert(lines_view(out@) =~= lines_view(old(out)@) + lines_view(old(more)@));
}

/// What is shown for one frame whose head is a valid CSHead.
pub struct FrameInfo<'a> {
    pub frame_index: usize,
    pub is_plaintext: bool,
    pub head: &'a CsHead,
    pub body_fields: Option<&'a Vec<DecodedField>>,
    pub msg_type: Option<&'a str>,
    pub crc_ok: bool,
    pub raw_head: &'a [u8],
    pub raw_body: &'a [u8],
    pub show_raw: bool,
}

/// The mathematical value of an optional string slice.
pub open spec fn opt_str_view(s: Option<&str>) -> Option<Seq<char>> {
    match s {
        Some(t) => Some(t@),
        None => None,
    }
}

/// The mathematical value of optional decoded body fields.
pub open spec fn opt_fields_view(f: Option<&Vec<DecodedField>>) -> Option<Seq<DecodedFieldSpec>> {
    match f {
        Some(v) => Some(fields_spec(v@)),
        None => None,
    }
}

/// The msgid, followed by the message type in brackets when it is known.
pub open spec fn msgid_label(msgid: i32, name: Option<Seq<char>>) -> Seq<char> {
    match name {
        Some(n) => int_text(msgid as int) + "  ("@ + n + ")"@,
        None => int_text(msgid as int),
    }
}

/// The first line of a frame: its number, whether it was encrypted, and its msgid.
pub open spec fn frame_title_line(index: nat, plaintext: bool, msgid: i32, name: Option<Seq<char>>) -> Seq<(Seq<char>, Style)> {
    seq![
        (with_number("▶ Frame #"@, index), Style::Bold),
        ("  "@, Style::Plain),
        if plaintext {
            (" plaintext"@, Style::Yellow)
        } else {
            (" encrypted"@, Style::Green)
        },
        ("  │  msgid: "@, Style::Plain),
        (msgid_label(msgid, name), Style::BoldYellow),
    ]
}

/// One header field: its label padded to 25 columns, then its value.
pub open spec fn head_line(label: Seq<char>, value: Seq<char>, style: Style) -> Seq<(Seq<char>, Style)> {
    seq![("    "@, Style::Plain), (pad_right(label, 25), Style::Dimmed), (" "@, Style::Plain), (value, style)]
}

/// The lines showing a CSHead, the checksum marked by whether it matched.
pub open spec fn cshead_text(h: CsHead, crc_ok: bool) -> Seq<Seq<(Seq<char>, Style)>> {
    seq![
        seq![("  [CSHead]"@, Style::BoldBlue)],
        head_line("msgid:"@, int_text(h.msgid as int), Style::BoldYellow),
        head_line("up_seqid:"@, dec_digits(h.up_seqid as nat), Style::Plain),
        head_line("down_seqid:"@, dec_digits(h.down_seqid as nat), Style::Plain),
        head_line("total_pack_count:"@, dec_digits(h.total_pack_count as nat), Style::Plain),
        head_line("current_pack_index:"@, dec_digits(h.current_pack_index as nat), Style::Plain),
        head_line("is_compress:"@, bool_text(h.is_compress), Style::Plain),
        head_line("checksum:"@, checksum_text(h.checksum), Style::Plain) + if crc_ok {
            seq![("  "@, Style::Plain), ("✓"@, Style::BoldGreen)]
        } else {
            seq![("  "@, Style::Plain), ("✗ mismatch"@, Style::BoldRed)]
        },
    ]
}

/// The lines showing a frame body: its fields when it parsed, else a
/// warning and a hex dump; only a title when it is empty.
pub open spec fn body_text(
    name: Option<Seq<char>>,
    fields: Option<Seq<DecodedFieldSpec>>,
    body: Seq<u8>,
) -> Seq<Seq<(Seq<char>, Style)>> {
    if body.len() == 0 {
        seq![seq![], seq![("  [Body] (empty)"@, Style::BoldBlue)]]
    } else {
        let title = match name {
            Some(n) => "  [Body: "@ + n + "]"@,
            None => "  [Body]"@,
        };
        seq![seq![], seq![(title, Style::BoldBlue)]] + match fields {
            Some(fs) => fields_lines(fs, 4),
            None => seq![
                seq![("    "@, Style::Plain), ("(could not parse body as protobuf, showing hex)"@, Style::ItalicRed)],
                seq![("    "@, Style::Plain), (trim_end(dump_lines(body, 4)), Style::Plain)],
            ],
        }
    }
}

/// The raw decrypted bytes of a frame, when asked for.
pub open spec fn raw_text(show: bool, head: Seq<u8>, body: Seq<u8>) -> Seq<Seq<(Seq<char>, Style)>> {
    if show {
        seq![
            seq![],
            seq![("  [Raw Bytes]"@, Style::BoldDimmed)],
            bytes_line("    head ("@, head),
            bytes_line("    body ("@, body),
        ]
    } else {
        seq![]
    }
}

/// Every line shown for a frame with a valid CSHead, from its parts.
pub open spec fn frame_text_of(
    index: nat,
    plaintext: bool,
    head: CsHead,
    name: Option<Seq<char>>,
    fields: Option<Seq<DecodedFieldSpec>>,
    crc_ok: bool,
    raw_head: Seq<u8>,
    raw_body: Seq<u8>,
    show_raw: bool,
) -> Seq<Seq<(Seq<char>, Style)>> {
    seq![seq![], frame_title_line(index, plaintext, head.msgid, name), rule_line('─', Style::Dimmed)]
        + cshead_text(head, crc_ok) + body_text(name, fields, raw_body) + raw_text(show_raw, raw_head, raw_body)
}

/// Every line shown for a frame with a valid CSHead.
pub open spec fn frame_text(info: FrameInfo) -> Seq<Seq<(Seq<char>, Style)>> {
    frame_text_of(
        info.frame_index as nat,
        info.is_plaintext,
        *info.head,
        opt_str_view(info.msg_type),
        opt_fields_view(info.body_fields),
        info.crc_ok,
        info.raw_head@,
        info.raw_body@,
        info.show_raw,
    )
}

fn head_line_exec(label: &str, value: Piece) -> (line: Vec<Piece>)
    ensures
        line_view(line@) == head_line(label@, value@.0, value@.1),
{
    let mut padded: Vec<char> = Vec::new();
    push_padded(&mut padded, label, 25);
    let ghost v = value@;
    let mut line: Vec<Piece> = Vec::new();
    push_piece(&mut line, lit("    ", Style::Plain));
    push_piece(&mut line, owned(&padded, Style::Dimmed));
    push_piece(&mut line, lit(" ", Style::Plain));
    push_piece(&mut line, value);
    assert(padded@ =~= pad_right(label@, 25));
    assert(line_view(line@) =~= head_line(label@, v.0, v.1));
    line
}

fn int_piece(v: i32, style: Style) -> (p: Piece)
    ensures
        p@ == (int_text(v as int), style),
{
    let mut chars: Vec<char> = Vec::new();
    push_int(&mut chars, v as i64);
    assert(chars@ =~= int_text(v as int));
    owned(&chars, style)
}

fn title_line_exec(info: &FrameInfo) -> (line: Vec<Piece>)
    ensures
        line_view(line@) == frame_title_line(
            info.frame_index as nat,
            info.is_plaintext,
            info.head.msgid,
            opt_str_view(info.msg_type),
        ),
{
    let mut label: Vec<char> = Vec::new();
    push_int(&mut label, info.head.msgid as i64);
    match info.msg_type {
        Some(n) => {
            push_str(&mut label, "  (");
            push_str(&mut label, n);
            push_str(&mut label, ")");
        },
        None => {},
    }
    assert(label@ =~= msgid_label(info.head.msgid, opt_str_view(info.msg_type)));
    let mut line: Vec<Piece> = Vec::new();
    push_piece(&mut line, numbered("▶ Frame #", info.frame_index as u64, Style::Bold));
    push_piece(&mut line, lit("  ", Style::Plain));
    if info.is_plaintext {
        push_piece(&mut line, lit(" plaintext", Style::Yellow));
    } else {
        push_piece(&mut line, lit(" encrypted", Style::Green));
    }
    push_piece(&mut line, lit("  │  msgid: ", Style::Plain));
    push_piece(&mut line, owned(&label, Style::BoldYellow));
    assert(line_view(line@) =~= frame_title_line(
        info.frame_index as nat,
        info.is_plaintext,
        info.head.msgid,
        opt_str_view(info.msg_type),
    ));
    line
}

fn cshead_lines(h: &CsHead, crc_ok: bool) -> (lines: Vec<Vec<Piece>>)
    ensures
        lines_view(lines@) == cshead_text(*h, crc_ok),
{
    let ghost want = cshead_text(*h, crc_ok);
    let mut out: Vec<Vec<Piece>> = Vec::new();
    let mut title: Vec<Piece> = Vec::new();
    push_piece(&mut title, lit("  [CSHead]", Style::BoldBlue));
    assert(line_view(title@) =~= want[0]);
    push_line(&mut out, title);
    push_line(&mut out, head_line_exec("msgid:", int_piece(h.msgid, Style::BoldYellow)));
    push_line(&mut out, head_line_exec("up_seqid:", decimal_piece(h.up_seqid, Style::Plain)));
    push_line(&mut out, head_line_exec("down_seqid:", decimal_piece(h.down_seqid, Style::Plain)));
    push_line(&mut out, head_line_exec("total_pack_count:", decimal_piece(h.total_pack_count as u64, Style::Plain)));
    push_line(
        &mut out,
        head_line_exec("current_pack_index:", decimal_piece(h.current_pack_index as u64, Style::Plain)),
    );
    let compress = if h.is_compress {
        lit("true", Style::Plain)
    } else {
        lit("false", Style::Plain)
    };
    push_line(&mut out, head_line_exec("is_compress:", compress));
    let mut crc_chars: Vec<char> = Vec::new();
    crc_chars.push('0');
    crc_chars.push('x');
    push_hex_upper_fixed(&mut crc_chars, h.checksum, 8);
    assert(crc_chars@ =~= checksum_text(h.checksum));
    let mut checksum = head_line_exec("checksum:", owned(&crc_chars, Style::Plain));
    push_piece(&mut checksum, lit("  ", Style::Plain));
    if crc_ok {
        push_piece(&mut checksum, lit("✓", Style::BoldGreen));
    } else {
        push_piece(&mut checksum, lit("✗ mismatch", Style::BoldRed));
    }
    assert(line_view(checksum@) =~= want[7]);
    push_line(&mut out, checksum);
    assert(lines_view(out@) =~= want);
    out
}

fn body_lines(name: Option<&str>, fields: Option<&Vec<DecodedField>>, body: &[u8]) -> (lines: Vec<Vec<Piece>>)
    ensures
        lines_view(lines@) == body_text(opt_str_view(name), opt_fields_view(fields), body@),
{
    let ghost want = body_text(opt_str_view(name), opt_fields_view(fields), body@);
    let mut out: Vec<Vec<Piece>> = Vec::new();
    let empty: Vec<Piece> = Vec::new();
    assert(line_view(empty@) =~= seq![]);
    push_line(&mut out, empty);
    if body.len() == 0 {
        let mut title: Vec<Piece> = Vec::new();
        push_piece(&mut title, lit("  [Body] (empty)", Style::BoldBlue));
        assert(line_view(title@) =~= want[1]);
        push_line(&mut out, title);
        assert(lines_view(out@) =~= want);
        return out;
    }
    let mut title_chars: Vec<char> = Vec::new();
    match name {
        Some(n) => {
            push_str(&mut title_chars, "  [Body: ");
            push_str(&mut title_chars, n);
            push_str(&mut title_chars, "]");
        },
        None => {
            push_str(&mut title_chars, "  [Body]");
        },
    }
    let mut title: Vec<Piece> = Vec::new();
    push_piece(&mut title, owned(&title_chars, Style::BoldBlue));
    assert(line_view(title@) =~= want[1]);
    push_line(&mut out, title);
    let ghost start = lines_view(out@);
    match fields {
        Some(fs) => {
            let mut pad: Vec<char> = Vec::new();
            push_repeat(&mut pad, ' ', 4);
            assert(pad@ =~= spaces(pad@.len()));
            push_field_lines(&mut out, fs, &pad);
            assert(start =~= seq![want[0], want[1]]);
            assert(lines_view(out@) =~= want);
        },
        None => {
            let mut warn: Vec<Piece> = Vec::new();
            push_piece(&mut warn, lit("    ", Style::Plain));
            push_piece(&mut warn, lit("(could not parse body as protobuf, showing hex)", Style::ItalicRed));
            assert(line_view(warn@) =~= want[2]);
            push_line(&mut out, warn);
            let mut dump: Vec<Piece> = Vec::new();
            push_piece(&mut dump, lit("    ", Style::Plain));
            push_piece(&mut dump, Piece { text: hex_dump(body, 4), style: Style::Plain });
            assert(line_view(dump@) =~= want[3]);
            push_line(&mut out, dump);
            assert(lines_view(out@) =~= want);
        },
    }
    assert(lines_view(out@) =~= want);
    out
}

fn raw_lines(show: bool, head: &[u8], body: &[u8]) -> (lines: Vec<Vec<Piece>>)
    ensures
        lines_view(lines@) == raw_text(show, head@, body@),
{
    let mut out: Vec<Vec<Piece>> = Vec::new();
    if show {
        let empty: Vec<Piece> = Vec::new();
        assert(line_view(empty@) =~= seq![]);
        push_line(&mut out, empty);
        let mut title: Vec<Piece> = Vec::new();
        push_piece(&mut title, lit("  [Raw Bytes]", Style::BoldDimmed));
        assert(line_view(title@) =~= seq![("  [Raw Bytes]"@, Style::BoldDimmed)]);
        push_line(&mut out, title);
        push_line(&mut out, bytes_line_exec("    head (", head));
        push_line(&mut out, bytes_line_exec("    body (", body));
    }
    assert(lines_view(out@) =~= raw_text(show, head@, body@));
    out
}

/// Every line shown for a frame with a valid CSHead.
pub fn frame_lines(info: &FrameInfo) -> (lines: Vec<Vec<Piece>>)
    ensures
        lines_view(lines@) == frame_text(*info),
{
    let mut out: Vec<Vec<Piece>> = Vec::new();
    let empty: Vec<Piece> = Vec::new();
    assert(line_view(empty@) =~= seq![]);
    push_line(&mut out, empty);
    push_line(&mut out, title_line_exec(info));
    push_line(&mut out, rule('─', Style::Dimmed));
    let mut head = cshead_lines(info.head, info.crc_ok);
    append_lines(&mut out, &mut head);
    let mut body = body_lines(info.msg_type, info.body_fields, info.raw_body);
    append_lines(&mut out, &mut body);
    let mut raw = raw_lines(info.show_raw, info.raw_head, info.raw_body);
    append_lines(&mut out, &mut raw);
    assert(lines_view(out@) =~= frame_text(*info));
    out
}

/// The mathematical value of optional owned body fields.
pub open spec fn opt_owned_fields_view(f: Option<Vec<DecodedField>>) -> Option<Seq<DecodedFieldSpec>> {
    match f {
        Some(v) => Some(fields_spec(v@)),
        None => None,
    }
}

/// The lines shown for one analysed frame.  A frame whose head is not a
/// CSHead, or whose CRC does not match, is shown only when `show_invalid`
/// asks for it.
pub open spec fn report_text(r: FrameReport, show_invalid: bool, show_raw: bool) -> Seq<Seq<(Seq<char>, Style)>> {
    match r.cshead {
        None => if show_invalid {
            invalid_frame_text(r.index as nat, r.head@, r.body@)
        } else {
            seq![]
        },
        Some(h) => if r.crc_ok || show_invalid {
            frame_text_of(
                r.index as nat,
                r.is_plaintext,
                h,
                opt_string_view(r.msg_type),
                opt_owned_fields_view(r.body_fields),
                r.crc_ok,
                r.head@,
                r.body@,
                show_raw,
            )
        } else {
            seq![]
        },
    }
}

/// The lines shown for one analysed frame.
pub fn report_lines(r: &FrameReport, show_invalid: bool, show_raw: bool) -> (lines: Vec<Vec<Piece>>)
    ensures
        lines_view(lines@) == report_text(*r, show_invalid, show_raw),
{
    match &r.cshead {
        None => {
            if show_invalid {
                invalid_frame_lines(r.index, r.head.as_slice(), r.body.as_slice())
            } else {
                let out: Vec<Vec<Piece>> = Vec::new();
                assert(lines_view(out@) =~= seq![]);
                out
            }
        },
        Some(h) => {
            if r.crc_ok || show_invalid {
                let msg_type = match &r.msg_type {
                    Some(t) => Some(t.as_str()),
                    None => None,
                };
                let info = FrameInfo {
                    frame_index: r.index,
                    is_plaintext: r.is_plaintext,
                    head: h,
                    body_fields: r.body_fields.as_ref(),
                    msg_type,
                    crc_ok: r.crc_ok,
                    raw_head: r.head.as_slice(),
                    raw_body: r.body.as_slice(),
                    show_raw,
                };
                assert(opt_str_view(info.msg_type) == opt_string_view(r.msg_type));
                assert(opt_fields_view(info.body_fields) == opt_owned_fields_view(r.body_fields));
                frame_lines(&info)
            } else {
                let out: Vec<Vec<Piece>> = Vec::new();
                assert(lines_view(out@) =~= seq![]);
                out
            }
        },
    }
}

/// The lines shown for `reports`, one frame after another.
pub open spec fn reports_text(reports: Seq<FrameReport>, show_invalid: bool, show_raw: bool) -> Seq<Seq<(Seq<char>, Style)>>
    decreases reports.len(),
{
    if reports.len() == 0 {
        seq![]
    } else {
        reports_text(reports.drop_last(), show_invalid, show_raw) + report_text(reports.last(), show_invalid, show_raw)
    }
}

/// The lines shown for one direction of a stream: nothing when it holds no
/// frame, else the box with its label and frame count, then each frame.
pub open spec fn stream_text(key: StreamKey, reports: Seq<FrameReport>, show_invalid: bool, show_raw: bool) -> Seq<
    Seq<(Seq<char>, Style)>,
> {
    if reports.len() == 0 {
        seq![]
    } else {
        stream_header_text(key, reports.len()) + reports_text(reports, show_invalid, show_raw)
    }
}

/// The lines shown for one direction of a stream, given its frame reports.
pub fn stream_lines(key: &StreamKey, reports: &[FrameReport], show_invalid: bool, show_raw: bool) -> (lines: Vec<
    Vec<Piece>,
>)
    ensures
        lines_view(lines@) == stream_text(*key, reports@, show_invalid, show_raw),
{
    if reports.len() == 0 {
        let out: Vec<Vec<Piece>> = Vec::new();
        assert(lines_view(out@) =~= seq![]);
        return out;
    }
    let mut out = stream_header_lines(key, reports.len());
    let ghost header = lines_view(out@);
    let mut i: usize = 0;
    assert(reports_text(reports@.take(0), show_invalid, show_raw) =~= seq![]);
    assert(lines_view(out@) =~= header + seq![]);
    while i < reports.len()
        invariant
            i <= reports.len(),
            lines_view(out@) == header + reports_text(reports@.take(i as int), show_invalid, show_raw),
        decreases reports.len() - i,
    {
        let mut more = report_lines(&reports[i], show_invalid, show_raw);
        append_lines(&mut out, &mut more);
        assert(reports@.take(i + 1).drop_last() =~= reports@.take(i as int));
        i += 1;
        assert(lines_view(out@) =~= header + reports_text(reports@.take(i as int), show_invalid, show_raw));
    }
    assert(reports@.take(i as int) =~= reports@);
    out
}

/// A frame's block shows, after its title and rule, the header: each member
/// on its own line after its label padded to 25 columns, in field order,
/// `is_compress` as `true` or `false`, and the checksum in upper-case hex
/// followed by whether it matched.
pub proof fn lemma_frame_shows_header(
    index: nat,
    plaintext: bool,
    head: CsHead,
    name: Option<Seq<char>>,
    fields: Option<Seq<DecodedFieldSpec>>,
    crc_ok: bool,
    raw_head: Seq<u8>,
    raw_body: Seq<u8>,
    show_raw: bool,
)
    ensures
        ({
            let t = frame_text_of(index, plaintext, head, name, fields, crc_ok, raw_head, raw_body, show_raw);
            let lead = ("    "@, Style::Plain);
            let gap = (" "@, Style::Plain);
            &&& t.len() >= 11
            &&& t[0] == Seq::<(Seq<char>, Style)>::empty()
            &&& t[1][0] == ("▶ Frame #"@ + dec_digits(index), Style::Bold)
            &&& t[1][2] == if plaintext {
                (" plaintext"@, Style::Yellow)
            } else {
                (" encrypted"@, Style::Green)
            }
            &&& t[3] == seq![("  [CSHead]"@, Style::BoldBlue)]
            &&& t[4] == seq![lead, (pad_right("msgid:"@, 25), Style::Dimmed), gap, (int_text(head.msgid as int), Style::BoldYellow)]
            &&& t[5] == seq![lead, (pad_right("up_seqid:"@, 25), Style::Dimmed), gap, (dec_digits(head.up_seqid as nat), Style::Plain)]
            &&& t[6] == seq![
                lead,
                (pad_right("down_seqid:"@, 25), Style::Dimmed),
                gap,
                (dec_digits(head.down_seqid as nat), Style::Plain),
            ]
            &&& t[7] == seq![
                lead,
                (pad_right("total_pack_count:"@, 25), Style::Dimmed),
                gap,
                (dec_digits(head.total_pack_count as nat), Style::Plain),
            ]
            &&& t[8] == seq![
                lead,
                (pad_right("current_pack_index:"@, 25), Style::Dimmed),
                gap,
                (dec_digits(head.current_pack_index as nat), Style::Plain),
            ]
            &&& t[9] == seq![
                lead,
                (pad_right("is_compress:"@, 25), Style::Dimmed),
                gap,
                (if head.is_compress {
                    "true"@
                } else {
                    "false"@
                }, Style::Plain),
            ]
            &&& t[10] == seq![
                lead,
                (pad_right("checksum:"@, 25), Style::Dimmed),
                gap,
                (seq!['0', 'x'] + hex_upper_fixed(head.checksum as nat, 8), Style::Plain),
                ("  "@, Style::Plain),
                if crc_ok {
                    ("✓"@, Style::BoldGreen)
                } else {
                    ("✗ mismatch"@, Style::BoldRed)
                },
            ]
        }),
{
    let t = frame_text_of(index, plaintext, head, name, fields, crc_ok, raw_head, raw_body, show_raw);
    let first = seq![
        Seq::<(Seq<char>, Style)>::empty(),
        frame_title_line(index, plaintext, head.msgid, name),
        rule_line('─', Style::Dimmed),
    ];
    let hd = cshead_text(head, crc_ok);
    let rest = body_text(name, fields, raw_body) + raw_text(show_raw, raw_head, raw_body);
    assert(t =~= first + hd + rest);
    assert(t[10] == hd[7]);
    assert(hd[7] =~= seq![
        ("    "@, Style::Plain),
        (pad_right("checksum:"@, 25), Style::Dimmed),
        (" "@, Style::Plain),
        (seq!['0', 'x'] + hex_upper_fixed(head.checksum as nat, 8), Style::Plain),
        ("  "@, Style::Plain),
        if crc_ok {
            ("✓"@, Style::BoldGreen)
        } else {
            ("✗ mismatch"@, Style::BoldRed)
        },
    ]);
}

} // verus!
