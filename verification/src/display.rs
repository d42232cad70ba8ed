//! Text forms used when printing: hex dumps, decimal and hex numbers, and
//! stream labels.

use vstd::prelude::*;

use crate::decode::DecodedField;
use crate::tcp::{IpAddress, StreamKey};
use crate::text::{is_whitespace, is_whitespace_exec, string_from_range, trailing_ws};

verus! {

/// The decimal digit for `d` (0 to 9).
pub open spec fn dec_char(d: int) -> char {
    (('0' as int) + d) as char
}

/// The decimal digits of `n`, without leading zeros (`0` for zero).
pub open spec fn dec_digits(n: nat) -> Seq<char>
    decreases n,
{
    if n < 10 {
        seq![dec_char(n as int)]
    } else {
        dec_digits(n / 10).push(dec_char((n % 10) as int))
    }
}

/// Append the decimal digits of `n` to `out`.
pub fn push_decimal(out: &mut Vec<char>, n: u64)
    ensures
        final(out)@ == old(out)@ + dec_digits(n as nat),
    decreases n,
{
    if n >= 10 {
        push_decimal(out, n / 10);
    }
    out.push(((n % 10) as u8 + 48u8) as char);
    proof {
        if n >= 10 {
            assert(dec_digits(n as nat) == dec_digits((n / 10) as nat).push(dec_char((n % 10) as int)));
        }
    }
    assert(final(out)@ =~= old(out)@ + dec_digits(n as nat)) by {
        if n < 10 {
            assert(dec_digits(n as nat) == seq![dec_char(n as int)]);
        }
    }
}

/// The lower-case hex digit for `d` (0 to 15).
pub open spec fn hex_lower_char(d: int) -> char {
    if d < 10 {
        (('0' as int) + d) as char
    } else {
        (('a' as int) + d - 10) as char
    }
}

/// The lower-case hex digits of `n`, without leading zeros (`0` for zero).
pub open spec fn hex_lower_digits(n: nat) -> Seq<char>
    decreases n,
{
    if n < 16 {
        seq![hex_lower_char(n as int)]
    } else {
        hex_lower_digits(n / 16).push(hex_lower_char((n % 16) as int))
    }
}

/// Append the lower-case hex digits of `n` to `out`.
pub fn push_hex_lower(out: &mut Vec<char>, n: u64)
    ensures
        final(out)@ == old(out)@ + hex_lower_digits(n as nat),
    decreases n,
{
    if n >= 16 {
        push_hex_lower(out, n / 16);
    }
    let d = (n % 16) as u8;
    let c = if d < 10 {
        (d + 48u8) as char
    } else {
        (d - 10 + 97u8) as char
    };
    out.push(c);
    assert(final(out)@ =~= old(out)@ + hex_lower_digits(n as nat)) by {
        if n < 16 {
            assert(hex_lower_digits(n as nat) == seq![hex_lower_char(n as int)]);
        } else {
            assert(hex_lower_digits(n as nat) == hex_lower_digits((n / 16) as nat).push(
                hex_lower_char((n % 16) as int),
            ));
        }
    }
}

/// The upper-case hex digit for `d` (0 to 15).
pub open spec fn hex_upper_char(d: int) -> char {
    if d < 10 {
        (('0' as int) + d) as char
    } else {
        (('A' as int) + d - 10) as char
    }
}

/// A byte as two upper-case hex digits.
pub open spec fn hex_pair(b: u8) -> Seq<char> {
    seq![hex_upper_char((b / 16) as int), hex_upper_char((b % 16) as int)]
}

/// The bytes of `chunk` as hex pairs separated by single spaces.
pub open spec fn hex_words(chunk: Seq<u8>) -> Seq<char>
    decreases chunk.len(),
{
    if chunk.len() == 0 {
        seq![]
    } else if chunk.len() == 1 {
        hex_pair(chunk[0])
    } else {
        hex_words(chunk.drop_last()).push(' ') + hex_pair(chunk.last())
    }
}

/// A byte as shown in the text column: printable ASCII and space as
/// themselves, anything else as `.`.
pub open spec fn ascii_char(b: u8) -> char {
    if (0x21 <= b <= 0x7e) || b == 0x20 {
        b as char
    } else {
        '.'
    }
}

/// One dump line: indentation, hex pairs, two spaces, the text column.
pub open spec fn dump_line(chunk: Seq<u8>, indent: nat) -> Seq<char> {
    Seq::new(indent, |i: int| ' ') + hex_words(chunk) + seq![' ', ' '] + Seq::new(
        chunk.len(),
        |i: int| ascii_char(chunk[i]),
    ) + seq!['\n']
}

/// Number of bytes shown per dump line.
pub const DUMP_WIDTH: usize = 16;

/// The dump lines of `data`, sixteen bytes per line.
pub open spec fn dump_lines(data: Seq<u8>, indent: nat) -> Seq<char>
    decreases data.len(),
{
    if data.len() == 0 {
        seq![]
    } else if data.len() <= DUMP_WIDTH {
        dump_line(data, indent)
    } else {
        dump_line(data.take(DUMP_WIDTH as int), indent) + dump_lines(data.skip(DUMP_WIDTH as int), indent)
    }
}

/// `s` without trailing whitespace (`str::trim_end`).
pub open spec fn trim_end(s: Seq<char>) -> Seq<char> {
    s.take(s.len() - trailing_ws(s))
}

fn push_hex_pair(out: &mut Vec<char>, b: u8)
    ensures
        final(out)@ == old(out)@ + hex_pair(b),
{
    let hi = b / 16;
    let lo = b % 16;
    out.push(if hi < 10 { (hi + 48u8) as char } else { (hi - 10 + 65u8) as char });
    out.push(if lo < 10 { (lo + 48u8) as char } else { (lo - 10 + 65u8) as char });
    assert(final(out)@ =~= old(out)@ + hex_pair(b));
}

/// Hex dump of `data`, sixteen bytes per line, each line indented by
/// `indent` spaces, with trailing whitespace removed.
pub fn hex_dump(data: &[u8], indent: usize) -> (r: String)
    ensures
        r@ == trim_end(dump_lines(data@, indent as nat)),
{
    let mut out: Vec<char> = Vec::new();
    let mut pos: usize = 0;
    assert(data@.skip(0) =~= data@);
    while pos < data.len()
        invariant
            pos <= data.len(),
            out@ + dump_lines(data@.skip(pos as int), indent as nat) == dump_lines(data@, indent as nat),
        decreases data.len() - pos,
    {
        let ghost start = out@;
        let ghost rest = data@.skip(pos as int);
        let end = if data.len() - pos > DUMP_WIDTH { pos + DUMP_WIDTH } else { data.len() };
        let ghost chunk = data@.subrange(pos as int, end as int);
        let mut i: usize = 0;
        while i < indent
            invariant
                i <= indent,
                out@ == start + Seq::new(i as nat, |k: int| ' '),
            decreases indent - i,
        {
            out.push(' ');
            i += 1;
            assert(out@ =~= start + Seq::new(i as nat, |k: int| ' '));
        }
        let ghost after_pad = out@;
        let mut j = pos;
        assert(chunk.take(0) =~= seq![]);
        while j < end
            invariant
                pos <= j <= end <= data.len(),
                chunk == data@.subrange(pos as int, end as int),
                out@ == after_pad + hex_words(chunk.take(j - pos)),
            decreases end - j,
        {
            let ghost before = out@;
            assert(chunk.take(j - pos + 1).drop_last() =~= chunk.take(j - pos));
            assert(chunk.take(j - pos + 1).last() == data@[j as int]);
            if j > pos {
                out.push(' ');
            }
            push_hex_pair(&mut out, data[j]);
            j += 1;
            assert(out@ =~= after_pad + hex_words(chunk.take(j - pos)));
        }
        assert(chunk.take(end - pos) =~= chunk);
        out.push(' ');
        out.push(' ');
        let ghost after_hex = out@;
        let mut k = pos;
        while k < end
            invariant
                pos <= k <= end <= data.len(),
                chunk == data@.subrange(pos as int, end as int),
                out@ == after_hex + Seq::new((k - pos) as nat, |m: int| ascii_char(chunk[m])),
            decreases end - k,
        {
            let b = data[k];
            let c = if (0x21 <= b && b <= 0x7e) || b == 0x20 { b as char } else { '.' };
            out.push(c);
            k += 1;
            assert(out@ =~= after_hex + Seq::new((k - pos) as nat, |m: int| ascii_char(chunk[m])));
        }
        out.push('\n');
        proof {
            assert(out@ =~= start + dump_line(chunk, indent as nat));
            if rest.len() <= DUMP_WIDTH {
                assert(chunk =~= rest);
                assert(data@.skip(end as int) =~= seq![]);
                assert(dump_lines(data@.skip(end as int), indent as nat) == Seq::<char>::empty());
                assert(out@ + dump_lines(data@.skip(end as int), indent as nat) =~= start + dump_lines(rest, indent as nat));
            } else {
                assert(chunk =~= rest.take(DUMP_WIDTH as int));
                assert(rest.skip(DUMP_WIDTH as int) =~= data@.skip(end as int));
                assert(out@ + dump_lines(data@.skip(end as int), indent as nat) =~= start + dump_lines(rest, indent as nat));
            }
        }
        pos = end;
    }
    assert(data@.skip(pos as int) =~= seq![]);
    assert(out@ + Seq::<char>::empty() =~= out@);
    let ghost full = out@;
    let mut j = out.len();
    assert(full.take(full.len() as int) =~= full);
    while j > 0 && is_whitespace_exec(out[j - 1])
        invariant
            j <= out.len(),
            out@ == full,
            trailing_ws(full) == (full.len() - j) + trailing_ws(full.take(j as int)),
        decreases j,
    {
        assert(full.take(j as int).drop_last() =~= full.take(j - 1));
        j -= 1;
    }
    assert(trailing_ws(full.take(j as int)) == 0);
    string_from_range(out.as_slice(), 0, j)
}

/// Dotted-decimal form of an IPv4 address given as its number.
pub open spec fn ipv4_text(x: u32) -> Seq<char> {
    dec_digits((x / 0x100_0000) as nat) + seq!['.'] + dec_digits(((x / 0x1_0000) % 256) as nat) + seq!['.']
        + dec_digits(((x / 256) % 256) as nat) + seq!['.'] + dec_digits((x % 256) as nat)
}

fn push_ipv4(out: &mut Vec<char>, x: u32)
    ensures
        final(out)@ == old(out)@ + ipv4_text(x),
{
    push_decimal(out, (x / 0x100_0000) as u64);
    out.push('.');
    push_decimal(out, ((x / 0x1_0000) % 256) as u64);
    out.push('.');
    push_decimal(out, ((x / 256) % 256) as u64);
    out.push('.');
    push_decimal(out, (x % 256) as u64);
    assert(final(out)@ =~= old(out)@ + ipv4_text(x));
}

/// The last `k` 16-bit groups of `n`, most significant first.
pub open spec fn groups_of(n: nat, k: nat) -> Seq<u16>
    decreases k,
{
    if k == 0 {
        seq![]
    } else {
        groups_of(n / 0x1_0000, (k - 1) as nat).push((n % 0x1_0000) as u16)
    }
}

/// The eight 16-bit groups of an IPv6 address.
pub open spec fn ipv6_groups(v: u128) -> Seq<u16> {
    groups_of(v as nat, 8)
}

proof fn lemma_groups_len(n: nat, k: nat)
    ensures
        groups_of(n, k).len() == k,
    decreases k,
{
    if k > 0 {
        lemma_groups_len(n / 0x1_0000, (k - 1) as nat);
    }
}

fn push_groups(out: &mut Vec<u16>, n: u128, k: usize)
    requires
        k <= 8,
    ensures
        final(out)@ == old(out)@ + groups_of(n as nat, k as nat),
    decreases k,
{
    if k > 0 {
        push_groups(out, n / 0x1_0000, k - 1);
        out.push((n % 0x1_0000) as u16);
        assert(final(out)@ =~= old(out)@ + groups_of(n as nat, k as nat));
    } else {
        assert(final(out)@ =~= old(out)@ + groups_of(n as nat, k as nat));
    }
}

/// The longest run of zero groups from `i` on, as `(start, length)`: the
/// first of the longest runs; `best` when none from `i` on is longer.
pub open spec fn zero_span(
    groups: Seq<u16>,
    i: int,
    cur_start: int,
    cur_len: int,
    best_start: int,
    best_len: int,
) -> (int, int)
    decreases groups.len() - i,
{
    if i < 0 || i >= groups.len() {
        (best_start, best_len)
    } else if groups[i] == 0 {
        let cs = if cur_len == 0 {
            i
        } else {
            cur_start
        };
        let cl = cur_len + 1;
        if cl > best_len {
            zero_span(groups, i + 1, cs, cl, cs, cl)
        } else {
            zero_span(groups, i + 1, cs, cl, best_start, best_len)
        }
    } else {
        zero_span(groups, i + 1, 0, 0, best_start, best_len)
    }
}

/// Groups in lower-case hex, separated by colons.
pub open spec fn join_groups(groups: Seq<u16>) -> Seq<char>
    decreases groups.len(),
{
    if groups.len() == 0 {
        seq![]
    } else if groups.len() == 1 {
        hex_lower_digits(groups[0] as nat)
    } else {
        join_groups(groups.drop_last()).push(':') + hex_lower_digits(groups.last() as nat)
    }
}

/// The text form of an IPv6 address (RFC 5952, as `Ipv6Addr`'s `Display`
/// writes it): an IPv4-mapped address as `::ffff:` and dotted decimal;
/// otherwise the groups in lower-case hex, the first longest run of two or
/// more zero groups written as `::`.
pub open spec fn ipv6_text(v: u128) -> Seq<char> {
    let g = ipv6_groups(v);
    if g[0] == 0 && g[1] == 0 && g[2] == 0 && g[3] == 0 && g[4] == 0 && g[5] == 0xffff {
        seq![':', ':', 'f', 'f', 'f', 'f', ':'] + ipv4_text((g[6] as int * 0x1_0000 + g[7] as int) as u32)
    } else {
        let (start, len) = zero_span(g, 0, 0, 0, 0, 0);
        if len > 1 {
            join_groups(g.take(start)) + seq![':', ':'] + join_groups(g.skip(start + len))
        } else {
            join_groups(g)
        }
    }
}

proof fn lemma_zero_span_bounds(groups: Seq<u16>, i: int, cs: int, cl: int, bs: int, bl: int)
    requires
        0 <= i <= groups.len(),
        0 <= cl,
        cl > 0 ==> 0 <= cs && cs + cl == i,
        0 <= bl,
        bl > 0 ==> 0 <= bs && bs + bl <= i,
    ensures
        ({
            let (s, l) = zero_span(groups, i, cs, cl, bs, bl);
            &&& 0 <= l
            &&& l >= bl
            &&& l > 0 ==> 0 <= s && s + l <= groups.len()
            &&& l == 0 ==> s == bs
        }),
    decreases groups.len() - i,
{
    if i < groups.len() {
        if groups[i] == 0 {
            let ns = if cl == 0 { i } else { cs };
            let nl = cl + 1;
            if nl > bl {
                lemma_zero_span_bounds(groups, i + 1, ns, nl, ns, nl);
            } else {
                lemma_zero_span_bounds(groups, i + 1, ns, nl, bs, bl);
            }
        } else {
            lemma_zero_span_bounds(groups, i + 1, 0, 0, bs, bl);
        }
    }
}

fn push_joined_groups(out: &mut Vec<char>, groups: &Vec<u16>, from: usize, to: usize)
    requires
        from <= to <= groups.len(),
    ensures
        final(out)@ == old(out)@ + join_groups(groups@.subrange(from as int, to as int)),
{
    let mut i = from;
    assert(groups@.subrange(from as int, from as int) =~= seq![]);
    while i < to
        invariant
            from <= i <= to <= groups.len(),
            out@ == old(out)@ + join_groups(groups@.subrange(from as int, i as int)),
        decreases to - i,
    {
        let ghost sub = groups@.subrange(from as int, i + 1);
        assert(sub.drop_last() =~= groups@.subrange(from as int, i as int));
        assert(sub.last() == groups@[i as int]);
        if i > from {
            out.push(':');
        }
        push_hex_lower(out, groups[i] as u64);
        i += 1;
        assert(out@ =~= old(out)@ + join_groups(groups@.subrange(from as int, i as int)));
    }
}

fn push_ipv6(out: &mut Vec<char>, v: u128)
    ensures
        final(out)@ == old(out)@ + ipv6_text(v),
{
    let mut g: Vec<u16> = Vec::new();
    push_groups(&mut g, v, 8);
    proof {
        lemma_groups_len(v as nat, 8);
    }
    assert(g@ =~= ipv6_groups(v));
    if g[0] == 0 && g[1] == 0 && g[2] == 0 && g[3] == 0 && g[4] == 0 && g[5] == 0xffff {
        out.push(':');
        out.push(':');
        out.push('f');
        out.push('f');
        out.push('f');
        out.push('f');
        out.push(':');
        let x = (g[6] as u32) * 0x1_0000 + g[7] as u32;
        push_ipv4(out, x);
        assert(final(out)@ =~= old(out)@ + ipv6_text(v));
        return;
    }
    let mut cur_start: usize = 0;
    let mut cur_len: usize = 0;
    let mut best_start: usize = 0;
    let mut best_len: usize = 0;
    let mut i: usize = 0;
    while i < 8
        invariant
            i <= 8,
            g@.len() == 8,
            g@ == ipv6_groups(v),
            cur_len <= i,
            cur_len > 0 ==> cur_start + cur_len == i,
            best_len <= i,
            best_len > 0 ==> best_start + best_len <= i,
            zero_span(g@, 0, 0, 0, 0, 0) == zero_span(
                g@,
                i as int,
                cur_start as int,
                cur_len as int,
                best_start as int,
                best_len as int,
            ),
        decreases 8 - i,
    {
        if g[i] == 0 {
            if cur_len == 0 {
                cur_start = i;
            }
            cur_len += 1;
            if cur_len > best_len {
                best_start = cur_start;
                best_len = cur_len;
            }
        } else {
            cur_start = 0;
            cur_len = 0;
        }
        i += 1;
    }
    proof {
        lemma_zero_span_bounds(g@, 0, 0, 0, 0, 0);
    }
    if best_len > 1 {
        push_joined_groups(out, &g, 0, best_start);
        out.push(':');
        out.push(':');
        let ghost mid = out@;
        push_joined_groups(out, &g, best_start + best_len, 8);
        assert(g@.subrange(0, best_start as int) =~= g@.take(best_start as int));
        assert(g@.subrange(best_start + best_len, 8) =~= g@.skip(best_start + best_len));
        assert(final(out)@ =~= old(out)@ + ipv6_text(v));
    } else {
        push_joined_groups(out, &g, 0, 8);
        assert(g@.subrange(0, 8) =~= g@);
        assert(final(out)@ =~= old(out)@ + ipv6_text(v));
    }
}

/// The text form of an address.
pub open spec fn ip_text(ip: IpAddress) -> Seq<char> {
    match ip {
        IpAddress::V4(x) => ipv4_text(x),
        IpAddress::V6(v) => ipv6_text(v),
    }
}

fn push_ip(out: &mut Vec<char>, ip: IpAddress)
    ensures
        final(out)@ == old(out)@ + ip_text(ip),
{
    match ip {
        IpAddress::V4(x) => push_ipv4(out, x),
        IpAddress::V6(v) => push_ipv6(out, v),
    }
}

/// `src:port → dst:port`.
pub open spec fn label_text(k: StreamKey) -> Seq<char> {
    ip_text(k.src_ip) + seq![':'] + dec_digits(k.src_port as nat) + seq![' ', '→', ' '] + ip_text(k.dst_ip)
        + seq![':'] + dec_digits(k.dst_port as nat)
}

impl StreamKey {
    /// `src:port → dst:port`, addresses in their usual text form.
    pub fn label(&self) -> (s: String)
        ensures
            s@ == label_text(*self),
    {
        let mut out: Vec<char> = Vec::new();
        push_ip(&mut out, self.src_ip);
        out.push(':');
        push_decimal(&mut out, self.src_port as u64);
        out.push(' ');
        out.push('→');
        out.push(' ');
        push_ip(&mut out, self.dst_ip);
        out.push(':');
        push_decimal(&mut out, self.dst_port as u64);
        assert(out@ =~= label_text(*self));
        string_from_range(out.as_slice(), 0, out.len())
    }
}

/// How a body field is labelled: `name (number)` when the schema names it,
/// else `field_number`.
pub open spec fn field_key_text(number: u32, name: Option<Seq<char>>) -> Seq<char> {
    match name {
        Some(n) => n + seq![' ', '('] + dec_digits(number as nat) + seq![')'],
        None => seq!['f', 'i', 'e', 'l', 'd', '_'] + dec_digits(number as nat),
    }
}

/// The label of a decoded body field.
pub fn field_key(f: &DecodedField) -> (s: String)
    ensures
        s@ == field_key_text(f.number, crate::decode::opt_string_view(f.name)),
{
    let mut out: Vec<char> = Vec::new();
    match &f.name {
        Some(name) => {
            let chars = crate::text::chars_of(name.as_str());
            let mut i: usize = 0;
            while i < chars.len()
                invariant
                    i <= chars.len(),
                    out@ == chars@.take(i as int),
                decreases chars.len() - i,
            {
                out.push(chars[i]);
                i += 1;
                assert(out@ =~= chars@.take(i as int));
            }
            out.push(' ');
            out.push('(');
            push_decimal(&mut out, f.number as u64);
            out.push(')');
            assert(out@ =~= field_key_text(f.number, crate::decode::opt_string_view(f.name)));
        },
        None => {
            out.push('f');
            out.push('i');
            out.push('e');
            out.push('l');
            out.push('d');
            out.push('_');
            push_decimal(&mut out, f.number as u64);
            assert(out@ =~= field_key_text(f.number, crate::decode::opt_string_view(f.name)));
        },
    }
    string_from_range(out.as_slice(), 0, out.len())
}

/// The upper-case hex digit of `d` (0 to 15), written out.
pub open spec fn upper_digit(d: u8) -> char {
    (if d < 10 {
        48 + d
    } else {
        55 + d
    }) as char
}

proof fn lemma_hex_words_layout(chunk: Seq<u8>)
    requires
        chunk.len() >= 1,
    ensures
        hex_words(chunk).len() == 3 * chunk.len() - 1,
        forall|i: int| 0 <= i < chunk.len() ==> hex_words(chunk)[3 * i] == upper_digit(#[trigger] chunk[i] / 16) && hex_words(
            chunk,
        )[3 * i + 1] == upper_digit(chunk[i] % 16),
        forall|i: int| 0 <= i < chunk.len() - 1 ==> #[trigger] hex_words(chunk)[3 * i + 2] == ' ',
    decreases chunk.len(),
{
    if chunk.len() > 1 {
        let init = chunk.drop_last();
        lemma_hex_words_layout(init);
        let w = hex_words(chunk);
        let wi = hex_words(init);
        assert(w == wi.push(' ') + hex_pair(chunk.last()));
        assert forall|i: int| 0 <= i < chunk.len() implies w[3 * i] == upper_digit(#[trigger] chunk[i] / 16) && w[3 * i
            + 1] == upper_digit(chunk[i] % 16) by {
            if i < chunk.len() - 1 {
                assert(init[i] == chunk[i]);
            }
        }
        assert forall|i: int| 0 <= i < chunk.len() - 1 implies #[trigger] w[3 * i + 2] == ' ' by {
            if i < chunk.len() - 2 {
                assert(wi[3 * i + 2] == ' ');
            }
        }
    }
}

/// A dump line of up to sixteen bytes is the indentation, then each byte as
/// two upper-case hex digits (high digit first) with one space between
/// bytes, two spaces, and each byte as itself when it is printable ASCII or
/// a space and as `.` otherwise.
pub proof fn lemma_dump_line_layout(chunk: Seq<u8>, indent: nat)
    requires
        1 <= chunk.len() <= DUMP_WIDTH,
    ensures
        ({
            let line = dump_lines(chunk, indent);
            let h = indent as int;
            let t = h + 3 * chunk.len() + 1;
            &&& line.len() == t + chunk.len() + 1
            &&& forall|j: int| 0 <= j < h ==> #[trigger] line[j] == ' '
            &&& forall|i: int|
                0 <= i < chunk.len() ==> line[h + 3 * i] == upper_digit(#[trigger] chunk[i] / 16) && line[h + 3 * i + 1]
                    == upper_digit(chunk[i] % 16) && line[t + i] == (if 0x20 <= chunk[i] <= 0x7e {
                    chunk[i] as char
                } else {
                    '.'
                })
            &&& forall|i: int| 0 <= i < chunk.len() - 1 ==> #[trigger] line[h + 3 * i + 2] == ' '
            &&& line[t - 2] == ' ' && line[t - 1] == ' '
            &&& line[line.len() - 1] == '\n'
        }),
{
    lemma_hex_words_layout(chunk);
    let h = indent as int;
    let w = hex_words(chunk);
    let pad = Seq::new(indent, |i: int| ' ');
    let text = Seq::new(chunk.len(), |i: int| ascii_char(chunk[i]));
    let line = dump_lines(chunk, indent);
    assert(line == pad + w + seq![' ', ' '] + text + seq!['\n']);
    let t = h + 3 * chunk.len() + 1;
    assert forall|i: int| 0 <= i < chunk.len() implies line[h + 3 * i] == upper_digit(#[trigger] chunk[i] / 16)
        && line[h + 3 * i + 1] == upper_digit(chunk[i] % 16) && line[t + i] == (if 0x20 <= chunk[i] <= 0x7e {
        chunk[i] as char
    } else {
        '.'
    }) by {
        assert(line[h + 3 * i] == w[3 * i]);
        assert(line[h + 3 * i + 1] == w[3 * i + 1]);
        assert(line[t + i] == text[i]);
    }
    assert forall|i: int| 0 <= i < chunk.len() - 1 implies #[trigger] line[h + 3 * i + 2] == ' ' by {
        assert(line[h + 3 * i + 2] == w[3 * i + 2]);
    }
}

} // verus!
