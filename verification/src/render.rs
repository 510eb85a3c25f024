//! Line rendering: turns a chunk of up to `width` bytes into one output line
//! of the form `0x<8 hex digits>: <hex section, padded>  <ascii section>\n`,
//! and a whole buffer into the concatenation of such lines.

use vstd::prelude::*;

use crate::config::Config;

verus! {

/// A byte is printable ASCII when it lies in `0x20..=0x7e`.
pub open spec fn is_printable(b: u8) -> bool {
    0x20 <= b && b <= 0x7e
}

/// The lowercase hex digit character for a nibble value.
pub open spec fn nibble_hex(n: u8) -> u8
    recommends
        n < 16,
{
    if n < 10 {
        (0x30 + n) as u8
    } else {
        (0x57 + n) as u8
    }
}

/// The two lowercase hex digit characters of a byte, high nibble first.
pub open spec fn hex_pair(b: u8) -> Seq<u8> {
    seq![nibble_hex(b / 16), nibble_hex(b % 16)]
}

/// The separator emitted before the byte at index `j` of a chunk: nothing
/// before the first byte, a double space where `j` starts a new group, and a
/// single space otherwise.
pub open spec fn hex_sep(j: int, group: usize) -> Seq<u8> {
    if j <= 0 {
        Seq::empty()
    } else if group > 0 && j % group as int == 0 {
        seq![0x20u8, 0x20u8]
    } else {
        seq![0x20u8]
    }
}

/// The hex text of a chunk: each byte as two digits, with separators.
pub open spec fn hex_body(chunk: Seq<u8>, group: usize) -> Seq<u8>
    decreases chunk.len(),
{
    if chunk.len() == 0 {
        Seq::empty()
    } else {
        hex_body(chunk.drop_last(), group) + hex_sep(chunk.len() - 1, group) + hex_pair(
            chunk.last(),
        )
    }
}

/// `n` space characters (none when `n` is negative).
pub open spec fn spaces(n: int) -> Seq<u8> {
    Seq::new(if n >= 0 { n as nat } else { 0 }, |i: int| 0x20u8)
}

/// The hex section of a line: the hex text of the chunk, padded with spaces
/// to the configuration's fixed hex region width.
pub open spec fn padded_hex(chunk: Seq<u8>, cfg: Config) -> Seq<u8> {
    hex_body(chunk, cfg.group) + spaces(
        cfg.hex_region_width_spec() - hex_body(chunk, cfg.group).len(),
    )
}

/// An offset reduced to its low 32 bits: offsets beyond `2^32 - 1` wrap in
/// the printed prefix, a documented limitation of the line format.
pub open spec fn low32(off: int) -> u32 {
    (off % 0x1_0000_0000) as u32
}

/// The eight lowercase hex digits of a 32-bit offset, most significant first.
pub open spec fn offset_digits(o: u32) -> Seq<u8> {
    Seq::new(8, |i: int| nibble_hex(((o >> (((7 - i) * 4) as u32)) & 0xf) as u8))
}

/// The offset prefix of a line: `0x`, eight hex digits, then `: `.
pub open spec fn offset_prefix(off: int) -> Seq<u8> {
    seq![0x30u8, 0x78u8] + offset_digits(low32(off)) + seq![0x3au8, 0x20u8]
}

/// The ASCII section of a line: each printable byte itself, every other byte
/// replaced. Its length is the chunk's length, never padded to the width.
pub open spec fn ascii_body(chunk: Seq<u8>, replacement: u8) -> Seq<u8> {
    chunk.map_values(|b: u8| if is_printable(b) { b } else { replacement })
}

/// One whole rendered line: offset prefix, padded hex section, a two-space
/// gutter, the ASCII section, and a terminating newline.
pub open spec fn line_spec(off: int, chunk: Seq<u8>, cfg: Config) -> Seq<u8> {
    offset_prefix(off) + padded_hex(chunk, cfg) + seq![0x20u8, 0x20u8] + ascii_body(
        chunk,
        cfg.replacement,
    ) + seq![0x0au8]
}

/// The rendered lines of a buffer, one per `width`-sized row, in order; the
/// last row may be shorter than `width`.
pub open spec fn lines_spec(data: Seq<u8>, off: int, cfg: Config) -> Seq<Seq<u8>>
    decreases data.len(),
{
    if cfg.width == 0 || data.len() == 0 {
        Seq::empty()
    } else if data.len() <= cfg.width {
        seq![line_spec(off, data, cfg)]
    } else {
        seq![line_spec(off, data.take(cfg.width as int), cfg)] + lines_spec(
            data.skip(cfg.width as int),
            off + cfg.width,
            cfg,
        )
    }
}

/// The full rendered text of a buffer starting at a given offset: the bytes
/// of all its lines, in order.
pub open spec fn render_spec(data: Seq<u8>, off: int, cfg: Config) -> Seq<u8>
    decreases data.len(),
{
    if cfg.width == 0 || data.len() == 0 {
        Seq::empty()
    } else if data.len() <= cfg.width {
        line_spec(off, data, cfg)
    } else {
        line_spec(off, data.take(cfg.width as int), cfg) + render_spec(
            data.skip(cfg.width as int),
            off + cfg.width,
            cfg,
        )
    }
}

/// The lowercase hex digit character for a nibble value.
fn nibble_to_hex(n: u8) -> (c: u8)
    requires
        n < 16,
    ensures
        c == nibble_hex(n),
{
    if n < 10 {
        0x30 + n
    } else {
        0x57 + n
    }
}

/// Renders one chunk of at most `width` bytes as a single output line.
pub fn render_line(off: u64, chunk: &[u8], cfg: &Config) -> (line: Vec<u8>)
    requires
        cfg.wf(),
        chunk@.len() <= cfg.width,
    ensures
        line@ == line_spec(off as int, chunk@, *cfg),
{
    let mut line: Vec<u8> = Vec::new();
    line.push(0x30);
    line.push(0x78);
    let o32: u32 = (off & 0xffff_ffff) as u32;
    proof {
        assert(off & 0xffff_ffff == off % 0x1_0000_0000) by (bit_vector);
        assert(o32 == low32(off as int));
    }
    let mut k: usize = 0;
    while k < 8
        invariant
            k <= 8,
            o32 == low32(off as int),
            line@ == seq![0x30u8, 0x78u8] + offset_digits(o32).take(k as int),
        decreases 8 - k,
    {
        let shift: u32 = ((7 - k) * 4) as u32;
        let nib32: u32 = (o32 >> shift) & 0xf;
        proof {
            assert((o32 >> shift) & 0xf < 16) by (bit_vector);
        }
        let d = nibble_to_hex(nib32 as u8);
        line.push(d);
        proof {
            assert(offset_digits(o32)[k as int] == d);
            assert(offset_digits(o32).take(k + 1) =~= offset_digits(o32).take(k as int).push(d));
            assert(line@ =~= seq![0x30u8, 0x78u8] + offset_digits(o32).take(k + 1));
        }
        k += 1;
    }
    line.push(0x3a);
    line.push(0x20);
    proof {
        assert(offset_digits(o32).take(8) =~= offset_digits(o32));
        assert(line@ =~= offset_prefix(off as int));
    }
    let ghost prefix = line@;
    let mut j: usize = 0;
    while j < chunk.len()
        invariant
            j <= chunk@.len(),
            chunk@.len() <= cfg.width,
            cfg.wf(),
            prefix == offset_prefix(off as int),
            line@ == prefix + hex_body(chunk@.take(j as int), cfg.group),
        decreases chunk@.len() - j,
    {
        if j > 0 {
            if cfg.group > 0 && j % cfg.group == 0 {
                line.push(0x20);
                line.push(0x20);
            } else {
                line.push(0x20);
            }
            proof {
                assert(line@ =~= prefix + hex_body(chunk@.take(j as int), cfg.group) + hex_sep(
                    j as int,
                    cfg.group,
                ));
            }
        } else {
            proof {
                assert(hex_sep(0, cfg.group) =~= Seq::<u8>::empty());
                assert(line@ =~= prefix + hex_body(chunk@.take(0), cfg.group) + hex_sep(
                    0,
                    cfg.group,
                ));
            }
        }
        let b = chunk[j];
        proof {
            assert(b >> 4 == b / 16 && b >> 4 < 16 && (b & 0xf) == b % 16 && (b & 0xf) < 16)
                by (bit_vector);
        }
        let hi = nibble_to_hex(b >> 4);
        let lo = nibble_to_hex(b & 0xf);
        line.push(hi);
        line.push(lo);
        proof {
            let pre = chunk@.take(j + 1);
            assert(pre.drop_last() =~= chunk@.take(j as int));
            assert(pre.last() == b);
            assert(line@ =~= prefix + hex_body(pre, cfg.group));
        }
        j += 1;
    }
    proof {
        assert(chunk@.take(chunk@.len() as int) =~= chunk@);
    }
    let region = cfg.hex_region_width();
    proof {
        lemma_hex_body_len_le_region(chunk@, *cfg);
    }
    let ghost body = hex_body(chunk@, cfg.group);
    let target = 12 + region;
    while line.len() < target
        invariant
            prefix == offset_prefix(off as int),
            body == hex_body(chunk@, cfg.group),
            prefix.len() == 12,
            target == 12 + region,
            region as int == cfg.hex_region_width_spec(),
            12 + body.len() <= line@.len() <= target,
            line@ == prefix + body + spaces(line@.len() - 12 - body.len()),
        decreases target - line@.len(),
    {
        line.push(0x20);
        proof {
            let n = line@.len() - 12 - body.len();
            assert(spaces(n) =~= spaces(n - 1).push(0x20u8));
            assert(line@ =~= prefix + body + spaces(n));
        }
    }
    proof {
        assert(line@ =~= prefix + padded_hex(chunk@, *cfg));
    }
    let ghost hexed = line@;
    line.push(0x20);
    line.push(0x20);
    let mut j: usize = 0;
    while j < chunk.len()
        invariant
            j <= chunk@.len(),
            hexed == prefix + padded_hex(chunk@, *cfg),
            line@ == hexed + seq![0x20u8, 0x20u8] + ascii_body(chunk@.take(j as int),
                cfg.replacement,
            ),
        decreases chunk@.len() - j,
    {
        let b = chunk[j];
        let shown = if 0x20 <= b && b <= 0x7e {
            b
        } else {
            cfg.replacement
        };
        line.push(shown);
        proof {
            assert(ascii_body(chunk@.take(j + 1), cfg.replacement) =~= ascii_body(
                chunk@.take(j as int),
                cfg.replacement,
            ).push(shown));
            assert(line@ =~= hexed + seq![0x20u8, 0x20u8] + ascii_body(
                chunk@.take(j + 1),
                cfg.replacement,
            ));
        }
        j += 1;
    }
    line.push(0x0a);
    proof {
        assert(chunk@.take(chunk@.len() as int) =~= chunk@);
        assert(line@ =~= line_spec(off as int, chunk@, *cfg));
    }
    line
}

/// How many extra separator spaces the hex text of an `n`-byte chunk holds:
/// one for each group boundary strictly inside the chunk.
pub open spec fn hex_extra(n: int, group: usize) -> int {
    if group > 0 && n >= 1 {
        (n - 1) / group as int
    } else {
        0
    }
}

/// For a positive divisor, dividing `m` steps up from dividing `m - 1`
/// exactly at the multiples of the divisor.
proof fn lemma_div_step(m: int, g: int)
    requires
        1 <= g,
        1 <= m,
    ensures
        m % g == 0 ==> m / g == (m - 1) / g + 1,
        m % g != 0 ==> m / g == (m - 1) / g,
{
    vstd::arithmetic::div_mod::lemma_fundamental_div_mod(m, g);
    let q = m / g;
    let r = m % g;
    assert(0 <= r < g) by {
        vstd::arithmetic::div_mod::lemma_mod_bound(m, g);
    }
    if r == 0 {
        assert(q >= 1) by (nonlinear_arith)
            requires
                m == g * q,
                m >= 1,
                g >= 1,
        ;
        assert(m - 1 == (q - 1) * g + (g - 1)) by (nonlinear_arith)
            requires
                m == g * q,
        ;
        vstd::arithmetic::div_mod::lemma_fundamental_div_mod_converse(m - 1, g, q - 1, g - 1);
    } else {
        assert(m - 1 == q * g + (r - 1)) by (nonlinear_arith)
            requires
                m == g * q + r,
        ;
        vstd::arithmetic::div_mod::lemma_fundamental_div_mod_converse(m - 1, g, q, r - 1);
    }
}

/// The exact length of the hex text of a chunk.
pub proof fn lemma_hex_body_len(chunk: Seq<u8>, group: usize)
    ensures
        hex_body(chunk, group).len() == if chunk.len() == 0 {
            0int
        } else {
            3 * chunk.len() - 1 + hex_extra(chunk.len() as int, group)
        },
    decreases chunk.len(),
{
    if chunk.len() > 0 {
        lemma_hex_body_len(chunk.drop_last(), group);
        let n = chunk.len() as int;
        if group > 0 && n >= 2 {
            lemma_div_step(n - 1, group as int);
        }
    }
}

/// The hex text of a chunk no longer than the configured width always fits
/// in the fixed hex region.
pub proof fn lemma_hex_body_len_le_region(chunk: Seq<u8>, cfg: Config)
    requires
        cfg.wf(),
        chunk.len() <= cfg.width,
    ensures
        hex_body(chunk, cfg.group).len() <= cfg.hex_region_width_spec(),
        cfg.hex_region_width_spec() >= 1,
{
    lemma_hex_body_len(chunk, cfg.group);
    let w = cfg.width as int;
    let g = cfg.group as int;
    if g > 0 {
        vstd::arithmetic::div_mod::lemma_fundamental_div_mod(w, g);
        let q = w / g;
        assert(q >= 1) by (nonlinear_arith)
            requires
                w == g * q,
                w >= 1,
                g >= 1,
        ;
        assert(w - 1 == (q - 1) * g + (g - 1)) by (nonlinear_arith)
            requires
                w == g * q,
        ;
        vstd::arithmetic::div_mod::lemma_fundamental_div_mod_converse(w - 1, g, q - 1, g - 1);
        if chunk.len() >= 1 {
            vstd::arithmetic::div_mod::lemma_div_is_ordered(chunk.len() - 1, w - 1, g);
        }
    }
}

/// The hex section of every line has exactly the configuration's fixed hex
/// region width, whether the chunk is full or short.
pub proof fn lemma_hex_section_width(chunk: Seq<u8>, cfg: Config)
    requires
        cfg.wf(),
        chunk.len() <= cfg.width,
    ensures
        padded_hex(chunk, cfg).len() == cfg.hex_region_width_spec(),
{
    lemma_hex_body_len_le_region(chunk, cfg);
}

/// Renders a whole buffer that starts at stream offset `off`: one line per
/// `width`-sized row, the last row possibly shorter.
pub fn render(data: &[u8], off: u64, cfg: &Config) -> (out: Vec<u8>)
    requires
        cfg.wf(),
        off + data@.len() <= u64::MAX,
    ensures
        out@ == render_spec(data@, off as int, *cfg),
{
    let mut out: Vec<u8> = Vec::new();
    let mut pos: usize = 0;
    proof {
        assert(data@.skip(0) =~= data@);
        assert(out@ + render_spec(data@, off as int, *cfg) =~= render_spec(
            data@,
            off as int,
            *cfg,
        ));
    }
    while pos < data.len()
        invariant
            cfg.wf(),
            pos <= data@.len(),
            off + data@.len() <= u64::MAX,
            out@ + render_spec(data@.skip(pos as int), off + pos, *cfg) == render_spec(
                data@,
                off as int,
                *cfg,
            ),
        decreases data@.len() - pos,
    {
        let n = if data.len() - pos >= cfg.width {
            cfg.width
        } else {
            data.len() - pos
        };
        let chunk = vstd::slice::slice_subrange(data, pos, pos + n);
        let mut piece = render_line(off + pos as u64, chunk, cfg);
        proof {
            let rest = data@.skip(pos as int);
            if rest.len() <= cfg.width {
                assert(chunk@ =~= rest);
                assert(data@.skip(pos + n as int) =~= Seq::<u8>::empty());
                assert(render_spec(rest, off + pos, *cfg) == piece@ + render_spec(
                    data@.skip(pos + n as int),
                    off + pos + n,
                    *cfg,
                ));
            } else {
                assert(chunk@ =~= rest.take(cfg.width as int));
                assert(rest.skip(cfg.width as int) =~= data@.skip(pos + n as int));
            }
        }
        out.append(&mut piece);
        proof {
            assert(out@ + render_spec(data@.skip(pos + n as int), off + (pos + n) as u64, *cfg)
                =~= render_spec(data@, off as int, *cfg));
        }
        pos += n;
    }
    proof {
        assert(data@.skip(pos as int) =~= Seq::<u8>::empty());
        assert(out@ =~= render_spec(data@, off as int, *cfg));
    }
    out
}

/// A byte is a lowercase hex digit character.
pub open spec fn is_hex_digit(c: u8) -> bool {
    (0x30 <= c && c <= 0x39) || (0x61 <= c && c <= 0x66)
}

proof fn lemma_nibble_in_range(o: u32, s: u32)
    ensures
        (o >> s) & 0xf < 16,
{
    assert((o >> s) & 0xf < 16) by (bit_vector);
}

/// The offset field of every line is exactly `0x`, eight lowercase hex
/// digits, and `: `, twelve characters in all.
pub proof fn lemma_offset_prefix_form(off: int)
    ensures
        offset_prefix(off).len() == 12,
        offset_prefix(off)[0] == 0x30u8,
        offset_prefix(off)[1] == 0x78u8,
        offset_prefix(off)[10] == 0x3au8,
        offset_prefix(off)[11] == 0x20u8,
        forall|i: int| 2 <= i < 10 ==> is_hex_digit(#[trigger] offset_prefix(off)[i]),
{
    let o = low32(off);
    assert forall|i: int| 2 <= i < 10 implies is_hex_digit(#[trigger] offset_prefix(off)[i]) by {
        let k = ((7 - (i - 2)) * 4) as u32;
        lemma_nibble_in_range(o, k);
        assert(offset_prefix(off)[i] == nibble_hex(((o >> k) & 0xf) as u8));
    }
}

/// The ASCII section's length equals the chunk's length, never padded to the
/// width; each printable byte passes through unchanged, and every other byte
/// is shown as exactly the replacement byte.
pub proof fn lemma_ascii_section(chunk: Seq<u8>, replacement: u8)
    ensures
        ascii_body(chunk, replacement).len() == chunk.len(),
        forall|i: int|
            0 <= i < chunk.len() ==> #[trigger] ascii_body(chunk, replacement)[i] == if is_printable(
                chunk[i],
            ) {
                chunk[i]
            } else {
                replacement
            },
{
}

/// A buffer of length `L` renders as exactly `ceil(L / width)` lines.
pub proof fn lemma_line_count(data: Seq<u8>, off: int, cfg: Config)
    requires
        cfg.wf(),
    ensures
        lines_spec(data, off, cfg).len() == (data.len() + cfg.width - 1) / cfg.width as int,
    decreases data.len(),
{
    let w = cfg.width as int;
    let ln = data.len() as int;
    if data.len() == 0 {
        vstd::arithmetic::div_mod::lemma_basic_div(w - 1, w);
    } else if data.len() <= cfg.width {
        vstd::arithmetic::div_mod::lemma_fundamental_div_mod_converse(ln + w - 1, w, 1, ln - 1);
    } else {
        lemma_line_count(data.skip(w), off + w, cfg);
        vstd::arithmetic::div_mod::lemma_div_plus_one(ln - 1, w);
    }
}

/// Line `k` of a rendered buffer is the rendering, at offset `off + k * width`,
/// of the bytes `k * width ..` up to the next width boundary or the end.
pub proof fn lemma_line_offsets(data: Seq<u8>, off: int, cfg: Config, k: int)
    requires
        cfg.wf(),
        0 <= k < lines_spec(data, off, cfg).len(),
    ensures
        k * cfg.width < data.len(),
        lines_spec(data, off, cfg)[k] == line_spec(
            off + k * cfg.width,
            data.subrange(
                k * cfg.width,
                if (k + 1) * cfg.width <= data.len() {
                    (k + 1) * cfg.width
                } else {
                    data.len() as int
                },
            ),
            cfg,
        ),
    decreases data.len(),
{
    let w = cfg.width as int;
    if k == 0 {
        assert(0 * w == 0) by (nonlinear_arith);
        assert((0 + 1) * w == w) by (nonlinear_arith);
        if data.len() <= cfg.width {
            assert(data.subrange(0, data.len() as int) =~= data);
            assert(lines_spec(data, off, cfg)[0] == line_spec(off, data, cfg));
        } else {
            assert(data.subrange(0, w) =~= data.take(w));
            assert(lines_spec(data, off, cfg)[0] == line_spec(off, data.take(w), cfg));
        }
    } else {
        let rest = data.skip(w);
        lemma_line_offsets(rest, off + w, cfg, k - 1);
        assert((k - 1) * w == k * w - w) by (nonlinear_arith);
        assert(k * w == (k + 1) * w - w) by (nonlinear_arith);
        assert((k - 1) * w >= 0) by (nonlinear_arith)
            requires
                k >= 1,
                w >= 1,
        ;
        assert(((k - 1) + 1) * w == k * w) by (nonlinear_arith);
        assert(lines_spec(data, off, cfg)[k] == lines_spec(rest, off + w, cfg)[k - 1]);
        let lo = k * w - w;
        let hi = if k * w <= rest.len() {
            k * w
        } else {
            rest.len() as int
        };
        assert(lines_spec(rest, off + w, cfg)[k - 1] == line_spec(
            off + w + lo,
            rest.subrange(lo, hi),
            cfg,
        ));
        assert(rest.subrange(lo, hi) =~= data.subrange(lo + w, hi + w));
        assert(hi + w == if (k + 1) * w <= data.len() {
            (k + 1) * w
        } else {
            data.len() as int
        });
        assert(lines_spec(data, off, cfg)[k] == line_spec(
            off + k * w,
            data.subrange(k * w, hi + w),
            cfg,
        ));
    }
}

/// Rendering is deterministic: the same bytes, start offset and
/// configuration always produce byte-identical output.
pub proof fn lemma_render_deterministic(
    d1: Seq<u8>,
    d2: Seq<u8>,
    off1: int,
    off2: int,
    cfg1: Config,
    cfg2: Config,
)
    requires
        d1 == d2,
        off1 == off2,
        cfg1 == cfg2,
    ensures
        render_spec(d1, off1, cfg1) == render_spec(d2, off2, cfg2),
{
}

/// The rendered text of a buffer is the concatenation of its rendered lines.
pub proof fn lemma_render_is_lines(data: Seq<u8>, off: int, cfg: Config)
    requires
        cfg.wf(),
    ensures
        render_spec(data, off, cfg) == lines_spec(data, off, cfg).flatten(),
    decreases data.len(),
{
    let w = cfg.width as int;
    if data.len() == 0 {
    } else if data.len() <= cfg.width {
        seq![line_spec(off, data, cfg)].lemma_flatten_singleton();
    } else {
        lemma_render_is_lines(data.skip(w), off + w, cfg);
        let head = seq![line_spec(off, data.take(w), cfg)];
        let tail = lines_spec(data.skip(w), off + w, cfg);
        vstd::seq_lib::lemma_flatten_concat(head, tail);
        head.lemma_flatten_singleton();
        assert(render_spec(data, off, cfg) =~= (head + tail).flatten());
    }
}

/// Splitting a buffer at a width boundary splits its rendering: the text of
/// the whole is the text of the head followed by the text of the tail
/// rendered at the advanced offset.
#[verifier::rlimit(50)]
pub proof fn lemma_render_split(data: Seq<u8>, off: int, cfg: Config, m: int)
    requires
        cfg.wf(),
        0 <= m <= data.len(),
        m % cfg.width as int == 0,
    ensures
        render_spec(data, off, cfg) == render_spec(data.take(m), off, cfg) + render_spec(
            data.skip(m),
            off + m,
            cfg,
        ),
    decreases m,
{
    let w = cfg.width as int;
    if m == 0 {
        assert(data.take(0) =~= Seq::<u8>::empty());
        assert(data.skip(0) =~= data);
        assert(render_spec(data, off, cfg) =~= render_spec(data.take(0), off, cfg) + render_spec(
            data.skip(0),
            off,
            cfg,
        ));
    } else {
        assert(m >= w) by {
            if m < w {
                vstd::arithmetic::div_mod::lemma_small_mod(m as nat, cfg.width as nat);
            }
        }
        assert((m - w) % w == 0) by {
            vstd::arithmetic::div_mod::lemma_mod_sub_multiples_vanish(m, w);
        }
        if data.len() <= cfg.width {
            assert(m == w && m == data.len());
            assert(data.take(m) =~= data);
            assert(data.skip(m) =~= Seq::<u8>::empty());
            assert(render_spec(data, off, cfg) =~= render_spec(data.take(m), off, cfg)
                + render_spec(data.skip(m), off + m, cfg));
        } else {
            lemma_render_split(data.skip(w), off + w, cfg, m - w);
            let line = line_spec(off, data.take(w), cfg);
            let mid = render_spec(data.skip(w).take(m - w), off + w, cfg);
            let tail = render_spec(data.skip(m), off + m, cfg);
            assert(data.skip(w).skip(m - w) =~= data.skip(m));
            assert(render_spec(data, off, cfg) == line + (mid + tail));
            if m > w {
                assert(data.skip(w).take(m - w) =~= data.take(m).skip(w));
                assert(data.take(m).take(w) =~= data.take(w));
                assert(render_spec(data.take(m), off, cfg) == line + mid);
            } else {
                assert(data.skip(w).take(0) =~= Seq::<u8>::empty());
                assert(data.take(m) =~= data.take(w));
                assert(render_spec(data.take(m), off, cfg) == line);
                assert(mid =~= Seq::<u8>::empty());
            }
            assert(line + (mid + tail) =~= (line + mid) + tail);
        }
    }
}

} // verus!
