//! Variable-byte integers: 1 to 4 bytes, 7 data bits per byte, least
//! significant group first, the high bit marking a continuation.
use vstd::prelude::*;

verus! {

/// The largest value a variable-byte integer can hold.
pub const VBI_MAX: u32 = 268435455;

/// Why a variable-byte integer could not be read.
#[derive(Debug, Clone, Copy, PartialEq, Eq, Structural)]
pub enum VbiError {
    /// The buffer ends before the integer does.
    NeedMore,
    /// A fifth byte would be needed, or a continuation group is a trailing zero.
    Malformed,
}

/// The canonical encoding of `n`.
pub open spec fn vbi_encode(n: nat) -> Seq<u8>
    decreases n,
{
    if n < 128 {
        seq![n as u8]
    } else {
        seq![(n % 128 + 128) as u8] + vbi_encode(n / 128)
    }
}

/// The number of bytes the encoding of `n` takes.
pub open spec fn vbi_len(n: nat) -> nat {
    if n < 128 {
        1
    } else if n < 16384 {
        2
    } else if n < 2097152 {
        3
    } else {
        4
    }
}

/// Reads the integer whose encoding starts at byte `i` of `s`; `i` bytes of
/// it have been read already. Yields the value of the groups from `i` on and
/// the number of bytes they take.
pub open spec fn vbi_parse_at(s: Seq<u8>, i: nat) -> Result<(nat, nat), VbiError>
    decreases 4 - i,
{
    if i >= 4 {
        Err(VbiError::Malformed)
    } else if s.len() <= i {
        Err(VbiError::NeedMore)
    } else if s[i as int] < 128 {
        if i > 0 && s[i as int] == 0 {
            Err(VbiError::Malformed)
        } else {
            Ok((s[i as int] as nat, 1))
        }
    } else {
        match vbi_parse_at(s, i + 1) {
            Ok((v, k)) => Ok(((s[i as int] - 128) as nat + 128 * v, k + 1)),
            Err(e) => Err(e),
        }
    }
}

/// Reads the integer at the start of `s`: its value and encoded length.
pub open spec fn vbi_parse(s: Seq<u8>) -> Result<(nat, nat), VbiError> {
    vbi_parse_at(s, 0)
}

/// The bound on what the groups from byte `i` on can hold.
pub open spec fn vbi_bound_at(i: nat) -> nat {
    if i == 0 {
        268435456
    } else if i == 1 {
        2097152
    } else if i == 2 {
        16384
    } else {
        128
    }
}

proof fn lemma_parse_at_encoded(s: Seq<u8>, i: nat, n: nat)
    requires
        i < 4,
        n < vbi_bound_at(i),
        i > 0 ==> n > 0,
        s.len() >= i + vbi_encode(n).len(),
        s.subrange(i as int, i + vbi_encode(n).len() as int) == vbi_encode(n),
    ensures
        vbi_parse_at(s, i) == Ok::<(nat, nat), VbiError>((n, vbi_encode(n).len())),
    decreases 4 - i,
{
    let e = vbi_encode(n);
    let ii = i as int;
    let el = e.len() as int;
    assert(s[ii] == s.subrange(ii, ii + el)[0]);
    if n >= 128 {
        let t = vbi_encode(n / 128);
        assert(e == seq![(n % 128 + 128) as u8] + t);
        assert(i + 1 < 4) by {
            if i >= 3 {
                assert(vbi_bound_at(i) == 128);
            }
        }
        let tl = t.len() as int;
        assert(s.subrange(ii + 1, ii + 1 + tl) =~= s.subrange(ii, ii + el).subrange(1, 1 + tl));
        assert(e.subrange(1, 1 + t.len() as int) =~= t);
        lemma_parse_at_encoded(s, i + 1, n / 128);
    }
}

/// The length of an encoding depends only on the magnitude of the value.
pub proof fn lemma_vbi_len(n: nat)
    requires
        n <= VBI_MAX,
    ensures
        vbi_encode(n).len() == vbi_len(n),
{
    reveal_with_fuel(vbi_encode, 5);
}

/// Every byte of an encoding but the last has the continuation bit set;
/// the last has it clear, and is not a trailing zero group.
pub proof fn lemma_vbi_shape(n: nat)
    ensures
        vbi_encode(n).len() >= 1,
        forall|i: int| 0 <= i < vbi_encode(n).len() - 1 ==> #[trigger] vbi_encode(n)[i] >= 128,
        vbi_encode(n).last() < 128,
        vbi_encode(n).len() > 1 ==> vbi_encode(n).last() != 0,
    decreases n,
{
    if n >= 128 {
        let t = vbi_encode(n / 128);
        lemma_vbi_shape(n / 128);
        assert(vbi_encode(n) == seq![(n % 128 + 128) as u8] + t);
        assert forall|i: int| 0 <= i < vbi_encode(n).len() - 1 implies #[trigger] vbi_encode(n)[i] >= 128 by {
            if i > 0 {
                assert(vbi_encode(n)[i] == t[i - 1]);
            }
        }
        assert(vbi_encode(n).last() == t.last());
        if t.len() == 1 {
            assert(n / 128 < 128) by {
                if n / 128 >= 128 {
                    assert(vbi_encode(n / 128).len() > 1);
                }
            }
            assert(t.last() == (n / 128) as u8);
        }
    }
}

/// Reading the encoding of any value in range, whatever follows it, gives
/// back the value and the encoding's length.
pub proof fn lemma_vbi_round_trip(n: nat, rest: Seq<u8>)
    requires
        n <= VBI_MAX,
    ensures
        vbi_parse(vbi_encode(n) + rest) == Ok::<(nat, nat), VbiError>((n, vbi_encode(n).len())),
        vbi_encode(n).len() == vbi_len(n),
{
    lemma_vbi_len(n);
    let s = vbi_encode(n) + rest;
    assert(s.subrange(0, vbi_encode(n).len() as int) =~= vbi_encode(n));
    lemma_parse_at_encoded(s, 0, n);
}

/// Appends the encoding of `n` to `buf`.
pub fn write_variable_integer(n: u32, buf: &mut Vec<u8>)
    requires
        n <= VBI_MAX,
    ensures
        final(buf)@ == old(buf)@ + vbi_encode(n as nat),
{
    let mut x: u32 = n;
    while x >= 128
        invariant
            buf@ + vbi_encode(x as nat) == old(buf)@ + vbi_encode(n as nat),
        decreases x,
    {
        proof {
            assert(vbi_encode(x as nat) == seq![((x as nat) % 128 + 128) as u8] + vbi_encode(
                (x as nat) / 128,
            ));
        }
        let b: u8 = (x % 128 + 128) as u8;
        buf.push(b);
        x = x / 128;
        proof {
            assert(buf@ + vbi_encode(x as nat) =~= old(buf)@ + vbi_encode(n as nat));
        }
    }
    buf.push(x as u8);
    proof {
        assert(buf@ =~= old(buf)@ + vbi_encode(n as nat));
    }
}

fn read_variable_integer_at(buf: &[u8], i: usize) -> (r: Result<(u32, usize), VbiError>)
    requires
        i <= 4,
    ensures
        match r {
            Ok((v, k)) => vbi_parse_at(buf@, i as nat) == Ok::<(nat, nat), VbiError>(
                (v as nat, k as nat),
            ) && v < vbi_bound_at(i as nat) && k + i <= 4,
            Err(e) => vbi_parse_at(buf@, i as nat) == Err::<(nat, nat), VbiError>(e),
        },
    decreases 4 - i,
{
    if i >= 4 {
        Err(VbiError::Malformed)
    } else if buf.len() <= i {
        Err(VbiError::NeedMore)
    } else if buf[i] < 128 {
        if i > 0 && buf[i] == 0 {
            Err(VbiError::Malformed)
        } else {
            Ok((buf[i] as u32, 1))
        }
    } else {
        match read_variable_integer_at(buf, i + 1) {
            Ok((v, k)) => {
                let low: u32 = (buf[i] - 128) as u32;
                Ok((low + 128 * v, k + 1))
            },
            Err(e) => Err(e),
        }
    }
}

/// Reads the variable-byte integer at the start of `buf`, giving its value
/// and the number of bytes it took.
pub fn read_variable_integer(buf: &[u8]) -> (r: Result<(u32, usize), VbiError>)
    ensures
        match r {
            Ok((v, k)) => vbi_parse(buf@) == Ok::<(nat, nat), VbiError>((v as nat, k as nat))
                && v <= VBI_MAX,
            Err(e) => vbi_parse(buf@) == Err::<(nat, nat), VbiError>(e),
        },
{
    read_variable_integer_at(buf, 0)
}

/// Whether `n` fits in a variable-byte integer.
pub fn fits_variable_integer(n: usize) -> (r: bool)
    ensures
        r == (n <= VBI_MAX),
{
    n <= 268435455
}

/// The encoded length of `n`.
pub fn variable_integer_len(n: u32) -> (r: usize)
    requires
        n <= VBI_MAX,
    ensures
        r == vbi_len(n as nat),
        r == vbi_encode(n as nat).len(),
{
    proof {
        lemma_vbi_len(n as nat);
    }
    if n < 128 {
        1
    } else if n < 16384 {
        2
    } else if n < 2097152 {
        3
    } else {
        4
    }
}

} // verus!
