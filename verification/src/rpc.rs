//! Decoding the answers of a Substrate node's JSON-RPC interface: block
//! numbers come as hex quantities (`"0x1a2b"`), and the `Timestamp::Now`
//! storage value as the SCALE encoding of a `u64` (eight bytes, least
//! significant first, written as `0x` and sixteen hex digits).

use vstd::prelude::*;

use crate::text::str_chars;

verus! {

broadcast use vstd::seq_lib::group_seq_properties;

/// The value of a hex digit (either case), or `None` for another character.
pub open spec fn hex_digit(c: char) -> Option<nat> {
    let x = c as int;
    if 48 <= x <= 57 {
        Some((x - 48) as nat)
    } else if 97 <= x <= 102 {
        Some((x - 87) as nat)
    } else if 65 <= x <= 70 {
        Some((x - 55) as nat)
    } else {
        None
    }
}

/// The number that a sequence of hex digits denotes, most significant digit
/// first (0 for no digit), or `None` when a character is not a hex digit.
pub open spec fn hex_value(s: Seq<char>) -> Option<nat>
    decreases s.len(),
{
    if s.len() == 0 {
        Some(0)
    } else {
        match (hex_value(s.drop_last()), hex_digit(s.last())) {
            (Some(v), Some(d)) => Some(v * 16 + d),
            _ => None,
        }
    }
}

/// The hex digits as a `u64`, or `None` when they are not all hex digits or
/// their value does not fit.
pub open spec fn spec_parse_hex(s: Seq<char>) -> Option<u64> {
    match hex_value(s) {
        Some(v) => if v <= u64::MAX {
            Some(v as u64)
        } else {
            None
        },
        None => None,
    }
}

/// A JSON-RPC quantity: `0x` followed by at least one hex digit.
pub open spec fn spec_hex_quantity(s: Seq<char>) -> Option<u64> {
    if s.len() > 2 && s[0] == '0' && s[1] == 'x' {
        spec_parse_hex(s.skip(2))
    } else {
        None
    }
}

/// Sixteen hex digits of eight bytes given least significant byte first,
/// rewritten most significant byte first.
pub open spec fn swap_bytes_hex(d: Seq<char>) -> Seq<char> {
    Seq::new(16, |i: int| d[2 * (7 - i / 2) + i % 2])
}

/// The `u64` that the SCALE encoding `0x` + sixteen hex digits holds.
pub open spec fn spec_storage_u64(s: Seq<char>) -> Option<u64> {
    if s.len() == 18 && s[0] == '0' && s[1] == 'x' {
        spec_parse_hex(swap_bytes_hex(s.skip(2)))
    } else {
        None
    }
}

/// A prefix of valid hex digits is valid and denotes no more.
proof fn lemma_hex_prefix(s: Seq<char>, k: int)
    requires
        0 <= k <= s.len(),
        hex_value(s) is Some,
    ensures
        hex_value(s.take(k)) is Some,
        hex_value(s.take(k))->0 <= hex_value(s)->0,
    decreases s.len(),
{
    if k < s.len() {
        lemma_hex_prefix(s.drop_last(), k);
        assert(s.drop_last().take(k) =~= s.take(k));
    } else {
        assert(s.take(k) =~= s);
    }
}

/// The value of one hex digit.
fn hex_digit_exec(c: char) -> (r: Option<u64>)
    ensures
        match hex_digit(c) {
            Some(d) => r == Some(d as u64),
            None => r is None,
        },
{
    if '0' <= c && c <= '9' {
        Some((c as u32 - 48) as u64)
    } else if 'a' <= c && c <= 'f' {
        Some((c as u32 - 87) as u64)
    } else if 'A' <= c && c <= 'F' {
        Some((c as u32 - 55) as u64)
    } else {
        None
    }
}

/// Parse `s[from..to]` as hex digits into a `u64`.
pub fn parse_hex(s: &Vec<char>, from: usize, to: usize) -> (r: Option<u64>)
    requires
        from <= to <= s@.len(),
    ensures
        r == spec_parse_hex(s@.subrange(from as int, to as int)),
{
    let ghost full = s@.subrange(from as int, to as int);
    let mut acc: u64 = 0;
    let mut i = from;
    assert(s@.subrange(from as int, from as int) =~= Seq::<char>::empty());
    while i < to
        invariant
            from <= i <= to <= s@.len(),
            full == s@.subrange(from as int, to as int),
            hex_value(s@.subrange(from as int, i as int)) == Some(acc as nat),
        decreases to - i,
    {
        let ghost pre = s@.subrange(from as int, i as int);
        let ghost next = s@.subrange(from as int, i + 1);
        assert(next.drop_last() =~= pre);
        assert(next.last() == s@[i as int]);
        assert(full.take(i + 1 - from) =~= next);
        let d = match hex_digit_exec(s[i]) {
            Some(d) => d,
            None => {
                proof {
                    if hex_value(full) is Some {
                        lemma_hex_prefix(full, i + 1 - from);
                    }
                }
                return None;
            },
        };
        let v = match acc.checked_mul(16) {
            Some(m) => m.checked_add(d),
            None => None,
        };
        match v {
            Some(v) => {
                acc = v;
            },
            None => {
                proof {
                    assert(hex_value(next) == Some(acc as nat * 16 + d as nat));
                    if hex_value(full) is Some {
                        lemma_hex_prefix(full, i + 1 - from);
                    }
                }
                return None;
            },
        }
        i += 1;
    }
    assert(s@.subrange(from as int, i as int) =~= full);
    Some(acc)
}

/// Parse a JSON-RPC quantity such as a block number (`"0x1a2b"`).
pub fn parse_hex_quantity(s: &str) -> (r: Option<u64>)
    ensures
        r == spec_hex_quantity(s@),
{
    let cs = str_chars(s);
    if cs.len() > 2 && cs[0] == '0' && cs[1] == 'x' {
        assert(cs@.subrange(2, cs@.len() as int) =~= s@.skip(2));
        parse_hex(&cs, 2, cs.len())
    } else {
        None
    }
}

/// Decode the SCALE encoding of a `u64` storage value, such as the block
/// timestamp in milliseconds.
pub fn decode_storage_u64(s: &str) -> (r: Option<u64>)
    ensures
        r == spec_storage_u64(s@),
{
    let cs = str_chars(s);
    if cs.len() != 18 || cs[0] != '0' || cs[1] != 'x' {
        return None;
    }
    let ghost d = s@.skip(2);
    let ghost want = swap_bytes_hex(d);
    let mut out: Vec<char> = Vec::new();
    let mut j: usize = 0;
    while j < 8
        invariant
            j <= 8,
            cs@ == s@,
            cs@.len() == 18,
            d == s@.skip(2),
            want == swap_bytes_hex(d),
            out@ =~= want.take(2 * j as int),
        decreases 8 - j,
    {
        let k = 2 + 2 * (7 - j);
        assert((2 * j as int) / 2 == j && (2 * j as int) % 2 == 0);
        assert((2 * j as int + 1) / 2 == j && (2 * j as int + 1) % 2 == 1);
        assert(want[2 * j as int] == d[2 * (7 - j as int)]);
        assert(want[2 * j as int + 1] == d[2 * (7 - j as int) + 1]);
        out.push(cs[k]);
        out.push(cs[k + 1]);
        assert(out@ =~= want.take(2 * j + 2));
        j += 1;
    }
    assert(out@.subrange(0, 16) =~= want);
    parse_hex(&out, 0, 16)
}

} // verus!
