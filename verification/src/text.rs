//! Building display text: digits, hexadecimal and dotted addresses.
use vstd::prelude::*;
use vstd::string::StringExecFns;

verus! {

/// The character of a digit in base 16 or lower (lowercase letters above nine).
pub open spec fn digit_char(d: nat) -> char {
    if d < 10 {
        (48 + d) as char
    } else {
        (87 + d) as char
    }
}

/// Decimal text of a natural number, without leading zeros.
pub open spec fn decimal(n: nat) -> Seq<char>
    decreases n,
{
    if n < 10 {
        seq![digit_char(n)]
    } else {
        decimal(n / 10).push(digit_char(n % 10))
    }
}

/// Lowercase hexadecimal text of a natural number, without leading zeros.
pub open spec fn hex(n: nat) -> Seq<char>
    decreases n,
{
    if n < 16 {
        seq![digit_char(n)]
    } else {
        hex(n / 16).push(digit_char(n % 16))
    }
}

/// Two lowercase hexadecimal digits of a byte.
pub open spec fn hex_byte(b: u8) -> Seq<char> {
    seq![digit_char((b / 16) as nat), digit_char((b % 16) as nat)]
}

/// Four lowercase hexadecimal digits of a 16-bit value.
pub open spec fn hex4(n: u16) -> Seq<char> {
    seq![
        digit_char((n / 4096) as nat),
        digit_char((n / 256 % 16) as nat),
        digit_char((n / 16 % 16) as nat),
        digit_char((n % 16) as nat),
    ]
}

#[verifier::external_body]
/// `String::push`: appends one character at the end of the string.
pub(crate) fn push_char(s: &mut String, c: char)
    ensures
        final(s)@ == old(s)@.push(c),
{
    s.push(c);
}

pub fn digit(d: u8) -> (c: char)
    requires
        d < 16,
    ensures
        c == digit_char(d as nat),
{
    if d < 10 {
        (48u8 + d) as char
    } else {
        (87u8 + d) as char
    }
}

/// Appends the decimal text of `n`.
pub fn push_decimal(s: &mut String, n: u64)
    ensures
        final(s)@ == old(s)@ + decimal(n as nat),
    decreases n,
{
    if n < 10 {
        push_char(s, digit(n as u8));
        assert(seq![digit_char(n as nat)] =~= decimal(n as nat));
    } else {
        push_decimal(s, n / 10);
        push_char(s, digit((n % 10) as u8));
    }
}

/// Appends the lowercase hexadecimal text of `n`.
pub fn push_hex(s: &mut String, n: u64)
    ensures
        final(s)@ == old(s)@ + hex(n as nat),
    decreases n,
{
    if n < 16 {
        push_char(s, digit(n as u8));
    } else {
        push_hex(s, n / 16);
        push_char(s, digit((n % 16) as u8));
    }
}

/// Appends the two hexadecimal digits of a byte.
pub fn push_hex_byte(s: &mut String, b: u8)
    ensures
        final(s)@ == old(s)@ + hex_byte(b),
{
    push_char(s, digit(b / 16));
    push_char(s, digit(b % 16));
}

/// Appends the four hexadecimal digits of a 16-bit value.
pub fn push_hex4(s: &mut String, n: u16)
    ensures
        final(s)@ == old(s)@ + hex4(n),
{
    push_char(s, digit((n / 4096) as u8));
    push_char(s, digit((n / 256 % 16) as u8));
    push_char(s, digit((n / 16 % 16) as u8));
    push_char(s, digit((n % 16) as u8));
}

/// A string holding the text of `lit`.
pub fn text(lit: &str) -> (s: String)
    ensures
        s@ == lit@,
{
    String::from_str(lit)
}

/// Two-digit hexadecimal bytes joined by `sep` (the separator appears only between bytes).
pub open spec fn hex_join(bytes: Seq<u8>, sep: char) -> Seq<char>
    decreases bytes.len(),
{
    if bytes.len() == 0 {
        Seq::empty()
    } else if bytes.len() == 1 {
        hex_byte(bytes[0])
    } else {
        hex_join(bytes.drop_last(), sep).push(sep) + hex_byte(bytes.last())
    }
}

/// Dotted-decimal text of four bytes, as `Ipv4Addr` displays them.
pub open spec fn ipv4_text(b: Seq<u8>) -> Seq<char> {
    decimal(b[0] as nat).push('.') + decimal(b[1] as nat).push('.') + decimal(b[2] as nat).push('.')
        + decimal(b[3] as nat)
}

/// Appends the bytes of `bytes` as two-digit hexadecimal numbers separated by `sep`.
pub fn push_hex_join(s: &mut String, bytes: &[u8], sep: char)
    ensures
        final(s)@ == old(s)@ + hex_join(bytes@, sep),
{
    let ghost start = s@;
    let mut i: usize = 0;
    while i < bytes.len()
        invariant
            i <= bytes@.len(),
            s@ == start + hex_join(bytes@.take(i as int), sep),
        decreases bytes@.len() - i,
    {
        let ghost before = s@;
        if i > 0 {
            push_char(s, sep);
        }
        push_hex_byte(s, bytes[i]);
        proof {
            let t = bytes@.take(i + 1);
            assert(t.drop_last() =~= bytes@.take(i as int));
            assert(t.last() == bytes@[i as int]);
            if i == 0 {
                assert(hex_join(bytes@.take(0), sep) =~= Seq::<char>::empty());
                assert(s@ =~= start + hex_join(t, sep));
            } else {
                assert(s@ =~= start + hex_join(t, sep));
            }
        }
        i += 1;
    }
    assert(bytes@.take(bytes@.len() as int) =~= bytes@);
}

/// Appends the dotted-decimal text of the four bytes starting at `at`.
pub fn push_ipv4(s: &mut String, bytes: &[u8], at: usize)
    requires
        at + 4 <= bytes@.len(),
    ensures
        final(s)@ == old(s)@ + ipv4_text(bytes@.subrange(at as int, at + 4)),
{
    let ghost start = s@;
    push_decimal(s, bytes[at] as u64);
    push_char(s, '.');
    push_decimal(s, bytes[at + 1] as u64);
    push_char(s, '.');
    push_decimal(s, bytes[at + 2] as u64);
    push_char(s, '.');
    push_decimal(s, bytes[at + 3] as u64);
    assert(s@ =~= start + ipv4_text(bytes@.subrange(at as int, at + 4)));
}

/// The eight big-endian 16-bit groups of a 16-byte address.
pub open spec fn segments(b: Seq<u8>) -> Seq<u16> {
    Seq::new(8, |i: int| (b[2 * i] as int * 256 + b[2 * i + 1] as int) as u16)
}

/// Minimal hexadecimal groups joined by `:`.
pub open spec fn hex_groups(segs: Seq<u16>) -> Seq<char>
    decreases segs.len(),
{
    if segs.len() == 0 {
        Seq::empty()
    } else if segs.len() == 1 {
        hex(segs[0] as nat)
    } else {
        hex_groups(segs.drop_last()).push(':') + hex(segs.last() as nat)
    }
}

/// Scans the groups from `i`, keeping the first longest run of zero groups seen so far
/// (`longest`) and the run that ends at the previous group (`current`), as (start, length).
pub open spec fn zero_run_from(segs: Seq<u16>, i: nat, longest: (nat, nat), current: (nat, nat)) -> (nat, nat)
    decreases segs.len() - i,
{
    if i >= segs.len() {
        longest
    } else if segs[i as int] == 0 {
        let cur = if current.1 == 0 { (i, 1nat) } else { (current.0, current.1 + 1) };
        let best = if cur.1 > longest.1 { cur } else { longest };
        zero_run_from(segs, i + 1, best, cur)
    } else {
        zero_run_from(segs, i + 1, longest, (0nat, 0nat))
    }
}

/// The first longest run of zero groups, as (start, length).
pub open spec fn zero_run(segs: Seq<u16>) -> (nat, nat) {
    zero_run_from(segs, 0, (0, 0), (0, 0))
}

/// Whether a 16-byte address is an IPv4-mapped address (`::ffff:a.b.c.d`).
pub open spec fn is_ipv4_mapped(b: Seq<u8>) -> bool {
    &&& forall|i: int| 0 <= i < 10 ==> b[i] == 0
    &&& b[10] == 0xff
    &&& b[11] == 0xff
}

/// Text of a 16-byte IPv6 address as `Ipv6Addr` displays it: IPv4-mapped addresses as
/// `::ffff:` and dotted decimal; otherwise minimal hexadecimal groups, with the first longest
/// run of two or more zero groups written as `::`.
pub open spec fn ipv6_text(b: Seq<u8>) -> Seq<char> {
    if is_ipv4_mapped(b) {
        "::ffff:"@ + ipv4_text(b.subrange(12, 16))
    } else {
        let segs = segments(b);
        let run = zero_run(segs);
        if run.1 > 1 {
            hex_groups(segs.subrange(0, run.0 as int)) + "::"@ + hex_groups(
                segs.subrange((run.0 + run.1) as int, 8),
            )
        } else {
            hex_groups(segs)
        }
    }
}

fn push_hex_groups(s: &mut String, segs: &Vec<u16>, from: usize, to: usize)
    requires
        from <= to <= segs@.len(),
    ensures
        final(s)@ == old(s)@ + hex_groups(segs@.subrange(from as int, to as int)),
{
    let ghost start = s@;
    let mut j = from;
    assert(segs@.subrange(from as int, from as int) =~= Seq::<u16>::empty());
    while j < to
        invariant
            from <= j <= to <= segs@.len(),
            s@ == start + hex_groups(segs@.subrange(from as int, j as int)),
        decreases to - j,
    {
        if j > from {
            push_char(s, ':');
        }
        push_hex(s, segs[j] as u64);
        proof {
            let t = segs@.subrange(from as int, j + 1);
            assert(t.drop_last() =~= segs@.subrange(from as int, j as int));
            assert(t.last() == segs@[j as int]);
            if j == from {
                assert(s@ =~= start + hex_groups(t));
            } else {
                assert(s@ =~= start + hex_groups(t));
            }
        }
        j += 1;
    }
}

/// Appends the text of the 16-byte IPv6 address starting at `at`.
pub fn push_ipv6(s: &mut String, bytes: &[u8], at: usize)
    requires
        at + 16 <= bytes@.len(),
    ensures
        final(s)@ == old(s)@ + ipv6_text(bytes@.subrange(at as int, at + 16)),
{
    let ghost b = bytes@.subrange(at as int, at + 16);
    let n = bytes.len();
    let mut mapped = bytes[at + 10] == 0xff && bytes[at + 11] == 0xff;
    let mut k: usize = 0;
    while k < 10
        invariant
            at + 16 <= bytes@.len(),
            n == bytes@.len(),
            b == bytes@.subrange(at as int, at + 16),
            k <= 10,
            mapped == (b[10] == 0xff && b[11] == 0xff && forall|i: int| 0 <= i < k ==> b[i] == 0),
        decreases 10 - k,
    {
        assert(bytes@[at + k] == b[k as int]);
        if bytes[at + k] != 0 {
            mapped = false;
        }
        k += 1;
    }
    if mapped {
        s.append("::ffff:");
        push_ipv4(s, bytes, at + 12);
        assert(bytes@.subrange(at + 12, at + 16) =~= b.subrange(12, 16));
        return;
    }
    let mut segs: Vec<u16> = Vec::new();
    let mut i: usize = 0;
    while i < 8
        invariant
            at + 16 <= bytes@.len(),
            n == bytes@.len(),
            b == bytes@.subrange(at as int, at + 16),
            i <= 8,
            segs@ =~= segments(b).take(i as int),
        decreases 8 - i,
    {
        segs.push((bytes[at + 2 * i] as u16) * 256 + bytes[at + 2 * i + 1] as u16);
        i += 1;
    }
    assert(segs@ =~= segments(b));
    let mut longest_start: usize = 0;
    let mut longest_len: usize = 0;
    let mut current_start: usize = 0;
    let mut current_len: usize = 0;
    let mut j: usize = 0;
    while j < 8
        invariant
            j <= 8,
            segs@ == segments(b),
            longest_len <= j,
            current_len <= j,
            zero_run(segs@) == zero_run_from(
                segs@,
                j as nat,
                (longest_start as nat, longest_len as nat),
                (current_start as nat, current_len as nat),
            ),
        decreases 8 - j,
    {
        if segs[j] == 0 {
            if current_len == 0 {
                current_start = j;
            }
            current_len += 1;
            if current_len > longest_len {
                longest_start = current_start;
                longest_len = current_len;
            }
        } else {
            current_start = 0;
            current_len = 0;
        }
        j += 1;
    }
    let ghost start = s@;
    if longest_len > 1 {
        proof {
            lemma_zero_run_bounds(segs@, 0, (0, 0), (0, 0));
        }
        push_hex_groups(s, &segs, 0, longest_start);
        s.append("::");
        push_hex_groups(s, &segs, longest_start + longest_len, 8);
    } else {
        push_hex_groups(s, &segs, 0, 8);
        assert(segs@.subrange(0, 8) =~= segs@);
    }
}

proof fn lemma_zero_run_bounds(segs: Seq<u16>, i: nat, longest: (nat, nat), current: (nat, nat))
    requires
        i <= segs.len(),
        longest.0 + longest.1 <= i,
        current.0 + current.1 <= i,
    ensures
        ({
            let r = zero_run_from(segs, i, longest, current);
            r.0 + r.1 <= segs.len()
        }),
    decreases segs.len() - i,
{
    if i < segs.len() {
        if segs[i as int] == 0 {
            let cur = if current.1 == 0 { (i, 1nat) } else { (current.0, current.1 + 1) };
            let best = if cur.1 > longest.1 { cur } else { longest };
            lemma_zero_run_bounds(segs, i + 1, best, cur);
        } else {
            lemma_zero_run_bounds(segs, i + 1, longest, (0nat, 0nat));
        }
    }
}


/// The bytes of a text whose characters are all ASCII.
pub open spec fn ascii(s: Seq<char>) -> Seq<u8> {
    Seq::new(s.len(), |i: int| s[i] as u8)
}

} // verus!
