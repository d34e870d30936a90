//! How registers and bytes are shown.

use vstd::prelude::*;
use crate::perf::Arch;
use crate::text::{self, decimal, hex, join, push_byte};

verus! {

/// Each value in hexadecimal.
pub open spec fn hexes(values: Seq<u64>) -> Seq<Seq<char>> {
    Seq::new(values.len(), |i: int| text::hex_text(values[i] as nat))
}

/// Each value in hexadecimal behind the name of its register.
pub open spec fn named_hexes(arch: Arch, values: Seq<u64>) -> Seq<Seq<char>> {
    Seq::new(
        values.len(),
        |i: int|
            arch.spec_arg_prefix() + text::decimal_digits(i as nat) + seq!['='] + text::hex_text(
                values[i] as nat,
            ),
    )
}

/// The first four arguments as a list, or every argument under its name.
pub open spec fn registers_text(arch: Arch, regs: Seq<u64>, all: bool) -> Seq<char> {
    if all {
        text::joined(named_hexes(arch, regs), " "@)
    } else {
        let shown = if regs.len() < 4 {
            regs
        } else {
            regs.take(4)
        };
        "args=["@ + text::joined(hexes(shown), ", "@) + "]"@
    }
}

/// Shows the arguments of a hit.
pub fn registers(arch: Arch, regs: &[u64], all: bool) -> (r: String)
    ensures
        r@ == registers_text(arch, regs@, all),
{
    let mut parts: Vec<String> = Vec::new();
    let total: usize = regs.len();
    if !all {
        let shown: usize = if total < 4 {
            total
        } else {
            4
        };
        while parts.len() < shown
            invariant
                shown <= total,
                total == regs@.len(),
                parts@.len() <= shown,
                text::texts(parts@) =~= hexes(regs@.take(parts@.len() as int)),
            decreases shown - parts@.len(),
        {
            let ghost before = parts@;
            parts.push(hex(regs[parts.len()]));
            assert(text::texts(parts@) =~= text::texts(before).push(
                text::hex_text(regs@[before.len() as int] as nat),
            ));
        }
        if total < 4 {
            assert(regs@.take(shown as int) =~= regs@);
        }
        let mut out = "args=[".to_owned();
        out.append(join(&parts, ", ").as_str());
        out.append("]");
        return out;
    }
    while parts.len() < total
        invariant
            total == regs@.len(),
            parts@.len() <= total,
            text::texts(parts@) =~= named_hexes(arch, regs@).take(parts@.len() as int),
        decreases total - parts@.len(),
    {
        let n: usize = parts.len();
        let mut part = arch.arg_prefix().to_owned();
        part.append(decimal(n as u64).as_str());
        part.push('=');
        part.append(hex(regs[n]).as_str());
        assert(part@ =~= named_hexes(arch, regs@)[n as int]);
        let ghost before = parts@;
        let ghost shown = part@;
        parts.push(part);
        assert(text::texts(parts@) =~= text::texts(before).push(shown));
    }
    assert(text::texts(parts@) =~= named_hexes(arch, regs@));
    join(&parts, " ")
}

/// A byte as a character, or a dot where it is not one that prints.
pub open spec fn printable(byte: u8) -> char {
    if 0x20 <= byte <= 0x7E {
        byte as char
    } else {
        '.'
    }
}

/// Each byte in hexadecimal with a space behind it.
pub open spec fn spaced_bytes(bytes: Seq<u8>) -> Seq<char>
    decreases bytes.len(),
{
    if bytes.len() == 0 {
        Seq::empty()
    } else {
        (spaced_bytes(bytes.drop_last()) + text::byte_text(bytes.last())).push(' ')
    }
}

/// A line of a dump: the bytes, filled up to sixteen, and what prints of them.
pub open spec fn dump_line(bytes: Seq<u8>) -> Seq<char> {
    spaced_bytes(bytes) + Seq::new((3 * (16 - bytes.len()) + 1) as nat, |i: int| ' ') + Seq::new(
        bytes.len(),
        |i: int| printable(bytes[i]),
    ) + seq!['\n']
}

/// A dump of bytes, sixteen to a line.
pub open spec fn dump_text(bytes: Seq<u8>) -> Seq<char>
    decreases bytes.len(),
{
    if bytes.len() == 0 {
        Seq::empty()
    } else if bytes.len() <= 16 {
        dump_line(bytes)
    } else {
        dump_line(bytes.take(16)) + dump_text(bytes.skip(16))
    }
}

fn push_line(out: &mut String, bytes: &[u8], from: usize, to: usize)
    requires
        from <= to <= bytes@.len(),
        to - from <= 16,
    ensures
        final(out)@ == old(out)@ + dump_line(bytes@.subrange(from as int, to as int)),
{
    let ghost line = bytes@.subrange(from as int, to as int);
    let mut i: usize = from;
    while i < to
        invariant
            from <= i <= to <= bytes@.len(),
            line == bytes@.subrange(from as int, to as int),
            out@ =~= old(out)@ + spaced_bytes(line.take(i - from)),
        decreases to - i,
    {
        assert(line.take(i + 1 - from).drop_last() =~= line.take(i - from));
        push_byte(out, bytes[i]);
        out.push(' ');
        i += 1;
    }
    assert(line.take(to - from) =~= line);
    let blanks: usize = 3 * (16 - (to - from)) + 1;
    let mut n: usize = 0;
    while n < blanks
        invariant
            n <= blanks,
            out@ =~= old(out)@ + spaced_bytes(line) + Seq::new(n as nat, |i: int| ' '),
        decreases blanks - n,
    {
        out.push(' ');
        n += 1;
    }
    let ghost filled = out@;
    i = from;
    while i < to
        invariant
            from <= i <= to <= bytes@.len(),
            line == bytes@.subrange(from as int, to as int),
            out@ =~= filled + Seq::new((i - from) as nat, |k: int| printable(line[k])),
        decreases to - i,
    {
        let byte: u8 = bytes[i];
        if 0x20 <= byte && byte <= 0x7E {
            out.push(byte as char);
        } else {
            out.push('.');
        }
        i += 1;
    }
    out.push('\n');
    assert(out@ =~= old(out)@ + dump_line(line));
}

/// Shows bytes, sixteen to a line, with what prints of them behind.
pub fn hexdump(bytes: &[u8]) -> (r: String)
    ensures
        r@ == dump_text(bytes@),
{
    let total: usize = bytes.len();
    let mut out = String::new();
    let mut at: usize = 0;
    assert(bytes@.skip(0) =~= bytes@);
    while at < total
        invariant
            at <= total,
            total == bytes@.len(),
            out@ + dump_text(bytes@.skip(at as int)) =~= dump_text(bytes@),
        decreases total - at,
    {
        let ghost rest = bytes@.skip(at as int);
        let end: usize = if total - at <= 16 {
            total
        } else {
            at + 16
        };
        push_line(&mut out, bytes, at, end);
        if total - at <= 16 {
            assert(bytes@.subrange(at as int, end as int) =~= rest);
            assert(bytes@.skip(end as int) =~= Seq::empty());
        } else {
            assert(bytes@.subrange(at as int, end as int) =~= rest.take(16));
            assert(bytes@.skip(end as int) =~= rest.skip(16));
        }
        at = end;
    }
    assert(bytes@.skip(at as int) =~= Seq::empty());
    out
}

/// A dump is made of its lines of sixteen bytes, all of them, in order.
pub proof fn lemma_dump_is_made_of_lines(a: Seq<u8>, b: Seq<u8>)
    requires
        a.len() % 16 == 0,
    ensures
        dump_text(a + b) == dump_text(a) + dump_text(b),
    decreases a.len(),
{
    if a.len() == 0 {
        assert(a + b =~= b);
        assert(dump_text(a) + dump_text(b) =~= dump_text(b));
    } else if b.len() == 0 {
        assert(a + b =~= a);
        assert(dump_text(a) + dump_text(b) =~= dump_text(a));
    } else {
        let rest = a.skip(16);
        lemma_dump_is_made_of_lines(rest, b);
        assert((a + b).take(16) =~= a.take(16));
        assert((a + b).skip(16) =~= rest + b);
        if a.len() == 16 {
            assert(a.take(16) =~= a);
            assert(rest =~= Seq::empty());
        }
        assert(dump_text(a + b) =~= dump_text(a) + dump_text(b));
    }
}

/// A line of a dump shows each of its bytes twice: as two digits, three columns
/// to a byte, and in the last columns as the character that it is, or as a dot
/// where it cannot be printed.
pub proof fn lemma_line_shows_its_bytes(bytes: Seq<u8>, i: int)
    requires
        0 <= i < bytes.len() <= 16,
    ensures
        dump_text(bytes).len() == 50 + bytes.len(),
        dump_text(bytes)[3 * i] == text::digit_char(bytes[i] as int / 16),
        dump_text(bytes)[3 * i + 1] == text::digit_char(bytes[i] as int % 16),
        dump_text(bytes)[3 * i + 2] == ' ',
        dump_text(bytes)[49 + i] == if 0x20 <= bytes[i] <= 0x7E {
            bytes[i] as char
        } else {
            '.'
        },
        dump_text(bytes).last() == '\n',
{
    lemma_spaced(bytes, i);
}

proof fn lemma_spaced(bytes: Seq<u8>, i: int)
    requires
        0 <= i < bytes.len(),
    ensures
        spaced_bytes(bytes).len() == 3 * bytes.len(),
        spaced_bytes(bytes)[3 * i] == text::digit_char(bytes[i] as int / 16),
        spaced_bytes(bytes)[3 * i + 1] == text::digit_char(bytes[i] as int % 16),
        spaced_bytes(bytes)[3 * i + 2] == ' ',
    decreases bytes.len(),
{
    let rest = bytes.drop_last();
    if rest.len() > 0 {
        lemma_spaced(rest, if i < rest.len() {
            i
        } else {
            0
        });
    } else {
        assert(spaced_bytes(rest).len() == 0);
    }
}

/// Registers are shown by name and value where all are asked for, and else the
/// values of the first four.
pub proof fn lemma_registers_are_shown(arch: Arch, regs: Seq<u64>)
    requires
        regs.len() > 4,
    ensures
        registers_text(arch, regs, true) == text::joined(
            Seq::new(
                regs.len(),
                |k: int|
                    arch.spec_arg_prefix() + text::decimal_digits(k as nat) + "="@ + text::hex_text(
                        regs[k] as nat,
                    ),
            ),
            " "@,
        ),
        registers_text(arch, regs, false) == "args=["@ + text::joined(
            seq![
                text::hex_text(regs[0] as nat),
                text::hex_text(regs[1] as nat),
                text::hex_text(regs[2] as nat),
                text::hex_text(regs[3] as nat),
            ],
            ", "@,
        ) + "]"@,
{
    reveal_strlit("=");
    assert("="@ =~= seq!['=']);
    let shown = Seq::new(
        regs.len(),
        |k: int|
            arch.spec_arg_prefix() + text::decimal_digits(k as nat) + "="@ + text::hex_text(
                regs[k] as nat,
            ),
    );
    assert(named_hexes(arch, regs) =~= shown);
    assert(hexes(regs.take(4)) =~= seq![
        text::hex_text(regs[0] as nat),
        text::hex_text(regs[1] as nat),
        text::hex_text(regs[2] as nat),
        text::hex_text(regs[3] as nat),
    ]);
}

} // verus!
