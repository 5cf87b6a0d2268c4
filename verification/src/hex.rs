use vstd::prelude::*;

verus! {

/// Number of bytes that `c` takes in UTF-8.
pub open spec fn utf8_width(c: char) -> nat {
    let u = c as u32;
    if u < 0x80 {
        1
    } else if u < 0x800 {
        2
    } else if u < 0x10000 {
        3
    } else {
        4
    }
}

/// Number of bytes that `s` takes in UTF-8 (`str::len`).
pub open spec fn byte_len(s: Seq<char>) -> nat
    decreases s.len(),
{
    if s.len() == 0 {
        0
    } else {
        utf8_width(s[0]) + byte_len(s.drop_first())
    }
}

/// The value of a hexadecimal digit.
pub open spec fn hex_digit(c: char) -> Option<u8> {
    if '0' <= c && c <= '9' {
        Some(((c as u32) - 48) as u8)
    } else if 'a' <= c && c <= 'f' {
        Some(((c as u32) - 87) as u8)
    } else if 'A' <= c && c <= 'F' {
        Some(((c as u32) - 55) as u8)
    } else {
        None
    }
}

/// `u8::from_str_radix(p, 16)` on a two-character ASCII string: two hex digits, or
/// `+` followed by one hex digit.
pub open spec fn radix16_pair(a: char, b: char) -> Option<u8> {
    if a == '+' {
        hex_digit(b)
    } else {
        match (hex_digit(a), hex_digit(b)) {
            (Some(x), Some(y)) => Some((16 * x + y) as u8),
            _ => None,
        }
    }
}

/// What reading consecutive two-byte slices of a string as hexadecimal bytes gives.
pub enum HexScan {
    /// A slice boundary falls inside a multi-byte character.
    Panics,
    /// A slice is not a hexadecimal byte.
    Rejected,
    /// Every slice is a hexadecimal byte; these are the values.
    Parsed(Seq<u8>),
}

/// Reads `k` two-byte slices from the front of `c`, stopping at the first slice that
/// is not a hexadecimal byte.
pub open spec fn scan_pairs(c: Seq<char>, k: nat) -> HexScan
    decreases k,
{
    if k == 0 {
        HexScan::Parsed(Seq::empty())
    } else if c.len() == 0 {
        HexScan::Panics
    } else if (c[0] as u32) < 0x80 {
        if c.len() >= 2 && (c[1] as u32) < 0x80 {
            match radix16_pair(c[0], c[1]) {
                None => HexScan::Rejected,
                Some(v) => match scan_pairs(c.skip(2), (k - 1) as nat) {
                    HexScan::Parsed(rest) => HexScan::Parsed(seq![v] + rest),
                    other => other,
                },
            }
        } else {
            HexScan::Panics
        }
    } else if utf8_width(c[0]) == 2 {
        HexScan::Rejected
    } else {
        HexScan::Panics
    }
}

/// Whether slicing `c` (six bytes long) into three two-byte pieces would fall inside a
/// character before a piece is found that is not hexadecimal.
pub open spec fn six_hex_panics(c: Seq<char>) -> bool {
    byte_len(c) == 6 && scan_pairs(c, 3) is Panics
}

/// The three bytes written by six hexadecimal digits, as `u8::from_str_radix` reads
/// the slices `[0..2]`, `[2..4]` and `[4..6]`.
pub open spec fn six_hex(c: Seq<char>) -> Option<(u8, u8, u8)> {
    if byte_len(c) != 6 {
        None
    } else {
        match scan_pairs(c, 3) {
            HexScan::Parsed(v) => Some((v[0], v[1], v[2])),
            _ => None,
        }
    }
}

proof fn lemma_scan_len(c: Seq<char>, k: nat)
    ensures
        scan_pairs(c, k) matches HexScan::Parsed(v) ==> v.len() == k,
    decreases k,
{
    if k > 0 && c.len() > 0 && (c[0] as u32) < 0x80 && c.len() >= 2 && (c[1] as u32) < 0x80 {
        lemma_scan_len(c.skip(2), (k - 1) as nat);
    }
}

/// The value of a hexadecimal digit.
pub fn hex_digit_value(c: char) -> (r: Option<u8>)
    ensures
        r == hex_digit(c),
{
    if '0' <= c && c <= '9' {
        Some((c as u8) - 48)
    } else if 'a' <= c && c <= 'f' {
        Some((c as u8) - 87)
    } else if 'A' <= c && c <= 'F' {
        Some((c as u8) - 55)
    } else {
        None
    }
}

fn radix16_pair_value(a: char, b: char) -> (r: Option<u8>)
    ensures
        r == radix16_pair(a, b),
{
    if a == '+' {
        hex_digit_value(b)
    } else {
        match (hex_digit_value(a), hex_digit_value(b)) {
            (Some(x), Some(y)) => Some(16 * x + y),
            _ => None,
        }
    }
}

fn char_width(c: char) -> (w: usize)
    ensures
        w == utf8_width(c),
{
    let u = c as u32;
    if u < 0x80 {
        1
    } else if u < 0x800 {
        2
    } else if u < 0x10000 {
        3
    } else {
        4
    }
}

proof fn lemma_byte_len_prefix(c: Seq<char>, i: int)
    requires
        0 <= i < c.len(),
    ensures
        byte_len(c) == byte_len(c.take(i)) + utf8_width(c[i]) + byte_len(c.skip(i + 1)),
    decreases i,
{
    if i == 0 {
        assert(c.take(0) =~= Seq::<char>::empty());
        assert(c.drop_first() =~= c.skip(1));
    } else {
        lemma_byte_len_prefix(c.drop_first(), i - 1);
        assert(c.drop_first().take(i - 1) =~= c.take(i).drop_first());
        assert(c.drop_first().skip(i) =~= c.skip(i + 1));
        assert(c.take(i)[0] == c[0]);
    }
}

proof fn lemma_byte_len_ge(c: Seq<char>)
    ensures
        byte_len(c) >= c.len(),
    decreases c.len(),
{
    if c.len() > 0 {
        lemma_byte_len_ge(c.drop_first());
    }
}

/// Whether `c` takes exactly six bytes in UTF-8.
pub fn is_six_bytes(c: &Vec<char>) -> (b: bool)
    ensures
        b == (byte_len(c@) == 6),
{
    let n = c.len();
    let mut total: usize = 0;
    let mut i: usize = 0;
    while i < n
        invariant
            n == c@.len(),
            i <= n,
            total == byte_len(c@.take(i as int)),
            total <= 6,
        decreases n - i,
    {
        proof {
            lemma_byte_len_prefix(c@.take(i + 1), i as int);
            assert(c@.take(i + 1).take(i as int) =~= c@.take(i as int));
            assert(c@.take(i + 1).skip(i + 1) =~= Seq::<char>::empty());
        }
        total = total + char_width(c[i]);
        if total > 6 {
            proof {
                lemma_byte_len_prefix(c@, i as int);
                assert(c@.take(i + 1) =~= c@.take(i as int).push(c@[i as int]));
            }
            return false;
        }
        i = i + 1;
    }
    assert(c@.take(n as int) =~= c@);
    total == 6
}

fn scan_three_pairs(c: &Vec<char>) -> (r: HexScanResult)
    requires
        byte_len(c@) == 6,
    ensures
        r == HexScanResult::from_scan(scan_pairs(c@, 3)),
{
    let mut out: Vec<u8> = Vec::new();
    let mut pos: usize = 0;
    let mut k: usize = 3;
    let ghost goal = scan_pairs(c@, 3);
    proof {
        assert(c@.skip(0) =~= c@);
        match scan_pairs(c@, 3) {
            HexScan::Parsed(r0) => {
                assert(out@ + r0 =~= r0);
            },
            _ => {},
        }
    }
    while k > 0
        invariant
            k <= 3,
            goal == scan_pairs(c@, 3),
            pos <= c@.len(),
            pos + 2 * k <= c@.len() + 2 * k,
            byte_len(c@.skip(pos as int)) == 2 * k,
            goal == match scan_pairs(c@.skip(pos as int), k as nat) {
                HexScan::Parsed(rest) => HexScan::Parsed(out@ + rest),
                other => other,
            },
        decreases k,
    {
        let ghost rest = c@.skip(pos as int);
        proof {
            lemma_byte_len_ge(rest);
        }
        if pos >= c.len() {
            assert(rest =~= Seq::<char>::empty());
            return HexScanResult::Panics;
        }
        let a = c[pos];
        assert(rest[0] == a);
        if (a as u32) < 0x80 {
            if pos + 1 < c.len() && (c[pos + 1] as u32) < 0x80 {
                let b = c[pos + 1];
                assert(rest[1] == b);
                match radix16_pair_value(a, b) {
                    None => {
                        assert(rest.len() >= 2);
                        assert(radix16_pair(rest[0], rest[1]) is None);
                        assert(scan_pairs(rest, k as nat) == HexScan::Rejected);
                        return HexScanResult::Rejected;
                    },
                    Some(v) => {
                        proof {
                            assert(rest.skip(2) =~= c@.skip(pos + 2));
                            assert(rest.drop_first().drop_first() =~= rest.skip(2));
                            assert(rest.drop_first()[0] == b);
                            assert(byte_len(rest) == 1 + byte_len(rest.drop_first()));
                            assert(byte_len(rest.drop_first()) == 1 + byte_len(
                                rest.drop_first().drop_first(),
                            ));
                            assert(out@.push(v) =~= out@ + seq![v]);
                            match scan_pairs(rest.skip(2), (k - 1) as nat) {
                                HexScan::Parsed(r2) => {
                                    assert(out@ + (seq![v] + r2) =~= out@.push(v) + r2);
                                },
                                _ => {},
                            }
                        }
                        out.push(v);
                        pos = pos + 2;
                        k = k - 1;
                    },
                }
            } else {
                assert(scan_pairs(rest, k as nat) == HexScan::Panics);
                return HexScanResult::Panics;
            }
        } else if char_width(a) == 2 {
            return HexScanResult::Rejected;
        } else {
            return HexScanResult::Panics;
        }
    }
    proof {
        lemma_scan_len(c@, 3);
    }
    HexScanResult::Parsed(out[0], out[1], out[2])
}

/// An executable form of the outcome of `scan_pairs` over three pairs.
pub enum HexScanResult {
    Panics,
    Rejected,
    Parsed(u8, u8, u8),
}

impl HexScanResult {
    pub open spec fn from_scan(s: HexScan) -> HexScanResult {
        match s {
            HexScan::Panics => HexScanResult::Panics,
            HexScan::Rejected => HexScanResult::Rejected,
            HexScan::Parsed(v) => HexScanResult::Parsed(v[0], v[1], v[2]),
        }
    }
}

/// Reads six hexadecimal digits (as `[0..2]`, `[2..4]`, `[4..6]` slices of the string's
/// bytes, each through `u8::from_str_radix(_, 16)`) into three bytes.
pub fn six_hex_value(c: &Vec<char>) -> (r: Option<(u8, u8, u8)>)
    requires
        !six_hex_panics(c@),
    ensures
        r == six_hex(c@),
{
    if !is_six_bytes(c) {
        return None;
    }
    proof {
        lemma_scan_len(c@, 3);
    }
    match scan_three_pairs(c) {
        HexScanResult::Parsed(r, g, b) => Some((r, g, b)),
        _ => None,
    }
}

/// Whether reading six hexadecimal digits out of `c` would slice inside a character.
pub fn six_hex_would_panic(c: &Vec<char>) -> (b: bool)
    ensures
        b == six_hex_panics(c@),
{
    if !is_six_bytes(c) {
        return false;
    }
    match scan_three_pairs(c) {
        HexScanResult::Panics => true,
        _ => false,
    }
}

} // verus!
