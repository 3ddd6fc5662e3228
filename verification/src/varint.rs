//! Variable-length unsigned integers: seven bits per byte, least significant
//! group first, the high bit set on every byte but the last.

use vstd::prelude::*;

verus! {

/// The bytes that encode `x`.
pub open spec fn varint_bytes(x: nat) -> Seq<u8>
    decreases x,
{
    if x < 128 {
        seq![x as u8]
    } else {
        seq![(x % 128 + 128) as u8] + varint_bytes(x / 128)
    }
}

/// The value of the varint that starts `s` and the number of bytes it takes,
/// or `None` where `s` ends before a byte without the high bit.
///
/// A varint may be of any length: a value is a natural number, and nothing
/// limits how many groups spell it.
pub open spec fn varint_parse(s: Seq<u8>) -> Option<(nat, nat)>
    decreases s.len(),
{
    if s.len() == 0 {
        None
    } else if s[0] < 128 {
        Some((s[0] as nat, 1nat))
    } else {
        match varint_parse(s.skip(1)) {
            None => None,
            Some((v, n)) => Some((((s[0] - 128) + 128 * v) as nat, n + 1)),
        }
    }
}

/// A parsed varint takes at least one byte and no more than there are.
pub proof fn lemma_parse_bounds(s: Seq<u8>)
    ensures
        match varint_parse(s) {
            None => true,
            Some((_, n)) => 1 <= n <= s.len(),
        },
    decreases s.len(),
{
    if s.len() > 0 && s[0] >= 128 {
        lemma_parse_bounds(s.skip(1));
    }
}

/// Parsing what `varint_bytes` wrote gives the value back, whatever follows it.
pub proof fn lemma_parse_of_bytes(x: nat, tail: Seq<u8>)
    ensures
        varint_parse(varint_bytes(x) + tail) == Some((x, varint_bytes(x).len())),
    decreases x,
{
    let s = varint_bytes(x) + tail;
    if x < 128 {
        assert(s[0] == x as u8);
    } else {
        let rest = varint_bytes(x / 128);
        assert(s[0] == (x % 128 + 128) as u8);
        assert(s.skip(1) =~= rest + tail);
        lemma_parse_of_bytes(x / 128, tail);
        assert(varint_bytes(x).len() == rest.len() + 1);
    }
}

/// A value below `2^64` takes at most ten bytes.
pub proof fn lemma_bytes_len(x: nat)
    ensures
        1 <= varint_bytes(x).len(),
        x <= u64::MAX ==> varint_bytes(x).len() <= 10,
{
    reveal_with_fuel(varint_bytes, 11);
}

/// Appends the encoding of `x` to `buf` and returns how many bytes that
/// took: at least one, at most ten.
pub fn put_uvarint(buf: &mut Vec<u8>, x: u64) -> (n: usize)
    ensures
        final(buf)@ == old(buf)@ + varint_bytes(x as nat),
        n == varint_bytes(x as nat).len(),
        1 <= n <= 10,
{
    let start: usize = buf.len();
    let mut v: u64 = x;
    while v >= 128
        invariant
            start == old(buf)@.len(),
            buf@.len() >= start,
            old(buf)@ + varint_bytes(x as nat) == buf@ + varint_bytes(v as nat),
        decreases v,
    {
        let ghost before = buf@;
        buf.push((v % 128 + 128) as u8);
        proof {
            assert(buf@ + varint_bytes((v / 128) as nat) =~= before + varint_bytes(v as nat));
        }
        v = v / 128;
    }
    let ghost before = buf@;
    buf.push(v as u8);
    proof {
        assert(buf@ =~= before + varint_bytes(v as nat));
        assert(buf@.len() == old(buf)@.len() + varint_bytes(x as nat).len());
        lemma_bytes_len(x as nat);
    }
    buf.len() - start
}

/// `128^k`.
pub open spec fn pow128(k: nat) -> nat
    decreases k,
{
    if k == 0 {
        1
    } else {
        128 * pow128((k - 1) as nat)
    }
}

/// The number that the low seven bits of the first `k` bytes of `s` spell.
pub open spec fn groups_value(s: Seq<u8>, k: nat) -> nat
    decreases k,
{
    if k == 0 {
        0
    } else {
        groups_value(s, (k - 1) as nat) + (s[k - 1] % 128) as nat * pow128((k - 1) as nat)
    }
}

/// Where the first `k` bytes of `s` all have the high bit set, the varint
/// at the start of `s` is the one that starts at `k`, shifted by `k` groups
/// and with the first `k` groups below it.
pub proof fn lemma_parse_continues(s: Seq<u8>, k: nat)
    requires
        k <= s.len(),
        forall|j: int| 0 <= j < k ==> s[j] >= 128,
    ensures
        varint_parse(s) == match varint_parse(s.skip(k as int)) {
            None => None::<(nat, nat)>,
            Some((v, n)) => Some((groups_value(s, k) + pow128(k) * v, n + k)),
        },
    decreases k,
{
    if k == 0 {
        assert(s.skip(0) =~= s);
        match varint_parse(s) {
            None => {},
            Some((v, n)) => {
                assert(pow128(0) * v == v) by (nonlinear_arith)
                    requires pow128(0) == 1;
            },
        }
    } else {
        let j = (k - 1) as nat;
        lemma_parse_continues(s, j);
        let t = s.skip(j as int);
        assert(t[0] == s[j as int]);
        assert(t.skip(1) =~= s.skip(k as int));
        match varint_parse(s.skip(k as int)) {
            None => {
                assert(varint_parse(t) is None);
            },
            Some((v, n)) => {
                let g = (s[j as int] - 128) as nat;
                assert(g == s[j as int] % 128);
                assert(varint_parse(t) == Some(((g + 128 * v) as nat, n + 1)));
                assert(pow128(k) == 128 * pow128(j));
                assert(pow128(j) * (g + 128 * v) == g * pow128(j) + (128 * pow128(j)) * v)
                    by (nonlinear_arith);
                assert(groups_value(s, k) == groups_value(s, j) + g * pow128(j));
            },
        }
    }
}

/// What `uvarint` finds at the start of a buffer.
#[derive(Debug, Clone, Copy, PartialEq, Eq, Structural)]
pub enum Uvarint {
    /// A varint of `len` bytes whose value is `value`.
    Value { value: u64, len: usize },
    /// A varint of `len` bytes whose value is `2^64` or more.
    TooLarge { len: usize },
    /// The buffer ends before the varint does.
    Truncated,
}

/// What `uvarint` returns for a buffer that holds `s` from the position it is given.
pub open spec fn uvarint_spec(s: Seq<u8>) -> Uvarint {
    match varint_parse(s) {
        None => Uvarint::Truncated,
        Some((v, n)) => if v <= u64::MAX {
            Uvarint::Value { value: v as u64, len: n as usize }
        } else {
            Uvarint::TooLarge { len: n as usize }
        },
    }
}

/// What each outcome of `uvarint` says of the bytes it read.
pub proof fn lemma_uvarint_spec(s: Seq<u8>)
    requires
        s.len() <= usize::MAX,
    ensures
        match uvarint_spec(s) {
            Uvarint::Truncated => varint_parse(s) is None,
            Uvarint::Value { value, len } => {
                &&& varint_parse(s) == Some((value as nat, len as nat))
                &&& 1 <= len <= s.len()
            },
            Uvarint::TooLarge { len } => {
                &&& varint_parse(s) is Some
                &&& varint_parse(s)->Some_0.0 > u64::MAX
                &&& varint_parse(s)->Some_0.1 == len
                &&& 1 <= len <= s.len()
            },
        },
{
    lemma_parse_bounds(s);
}

/// Reads the varint that starts at `pos` in `buf`.
pub fn uvarint(buf: &[u8], pos: usize) -> (r: Uvarint)
    requires
        pos <= buf@.len(),
    ensures
        r == uvarint_spec(buf@.skip(pos as int)),
{
    let ghost s = buf@.skip(pos as int);
    let mut i: usize = pos;
    let mut acc: u64 = 0;
    let mut over: bool = false;
    let mut scale: u64 = 1;
    let mut wide: bool = false;
    while i < buf.len()
        invariant
            pos <= i <= buf@.len(),
            s == buf@.skip(pos as int),
            forall|j: int| 0 <= j < i - pos ==> s[j] >= 128,
            !over ==> acc == groups_value(s, (i - pos) as nat),
            over ==> groups_value(s, (i - pos) as nat) > u64::MAX,
            !wide ==> scale == pow128((i - pos) as nat),
            wide ==> pow128((i - pos) as nat) > u64::MAX,
        decreases buf@.len() - i,
    {
        let ghost k = (i - pos) as nat;
        let b: u8 = buf[i];
        let g: u64 = (b % 128) as u64;
        proof {
            assert(s[k as int] == b);
            assert(groups_value(s, k + 1) == groups_value(s, k) + g as nat * pow128(k));
            assert(g != 0 ==> g as nat * pow128(k) >= pow128(k)) by (nonlinear_arith);
            assert(g == 0 ==> g as nat * pow128(k) == 0) by (nonlinear_arith);
        }
        if !over && g != 0 {
            if wide {
                over = true;
            } else {
                assert(g * scale <= 127 * scale) by (nonlinear_arith)
                    requires g <= 127;
                let sum: u128 = acc as u128 + (g as u128) * (scale as u128);
                assert(sum == groups_value(s, k + 1));
                if sum > u64::MAX as u128 {
                    over = true;
                } else {
                    acc = sum as u64;
                }
            }
        }
        assert(!over ==> acc == groups_value(s, k + 1));
        assert(over ==> groups_value(s, k + 1) > u64::MAX);
        if b < 128 {
            proof {
                lemma_parse_continues(s, k);
                assert(s.skip(k as int)[0] == b);
                assert(pow128(k) * b as nat == g as nat * pow128(k)) by (nonlinear_arith)
                    requires b == g;
            }
            return if over {
                Uvarint::TooLarge { len: i - pos + 1 }
            } else {
                Uvarint::Value { value: acc, len: i - pos + 1 }
            };
        }
        if !wide {
            if scale > u64::MAX / 128 {
                wide = true;
            } else {
                scale = scale * 128;
            }
        }
        i = i + 1;
    }
    proof {
        lemma_parse_continues(s, (i - pos) as nat);
    }
    Uvarint::Truncated
}

} // verus!
