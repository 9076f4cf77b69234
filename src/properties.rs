//! Property blocks: a sequence of identifier and value, each identifier one
//! of the MQTT v5 table, each value of the shape its identifier fixes. Only
//! User Property may appear twice.
use crate::vbi::{read_variable_integer, vbi_parse};
use vstd::prelude::*;
use vstd::slice::slice_subrange;

verus! {

/// User Property, the one identifier that may repeat.
pub const USER_PROPERTY: u8 = 0x26;

/// Property identifier of Receive Maximum.
pub const RECEIVE_MAXIMUM_ID: u8 = 0x21;

/// The shape of a property value: 1 for a byte, 2 and 4 for integers, 5
/// for a variable-byte integer, 6 for a string or binary data, 7 for a
/// string pair; 0 for an identifier outside the table.
pub open spec fn value_shape(id: u8) -> u8 {
    if id == 0x01 || id == 0x17 || id == 0x19 || id == 0x24 || id == 0x25 || id == 0x28 || id
        == 0x29 || id == 0x2A {
        1
    } else if id == 0x13 || id == 0x21 || id == 0x22 || id == 0x23 {
        2
    } else if id == 0x02 || id == 0x11 || id == 0x18 || id == 0x27 {
        4
    } else if id == 0x0B {
        5
    } else if id == 0x03 || id == 0x08 || id == 0x09 || id == 0x12 || id == 0x15 || id == 0x16
        || id == 0x1A || id == 0x1C || id == 0x1F {
        6
    } else if id == USER_PROPERTY {
        7
    } else {
        0
    }
}

pub open spec fn prefixed_len(s: Seq<u8>) -> Option<nat> {
    if s.len() >= 2 && 2 + (s[0] as nat * 256 + s[1] as nat) <= s.len() {
        Some(2 + (s[0] as nat * 256 + s[1] as nat))
    } else {
        None
    }
}

/// The length of the value of shape `k` at the front of `s`.
pub open spec fn value_len(k: u8, s: Seq<u8>) -> Option<nat> {
    if k == 1 || k == 2 || k == 4 {
        if s.len() >= k {
            Some(k as nat)
        } else {
            None
        }
    } else if k == 5 {
        match vbi_parse(s) {
            Ok((_, n)) => Some(n),
            Err(_) => None,
        }
    } else if k == 6 {
        prefixed_len(s)
    } else if k == 7 {
        match prefixed_len(s) {
            Some(a) => match prefixed_len(s.skip(a as int)) {
                Some(b) => Some(a + b),
                None => None,
            },
            None => None,
        }
    } else {
        None
    }
}

/// The length of the property at the front of `s`.
pub open spec fn entry_len(s: Seq<u8>) -> Option<nat> {
    if s.len() == 0 {
        None
    } else {
        match value_len(value_shape(s[0]), s.skip(1)) {
            Some(n) => if 1 + n <= s.len() {
                Some(1 + n)
            } else {
                None
            },
            None => None,
        }
    }
}

/// The identifiers of a well-formed block, in order; `None` when the block
/// is not well formed.
pub open spec fn property_ids(s: Seq<u8>) -> Option<Seq<u8>>
    decreases s.len(),
{
    if s.len() == 0 {
        Some(Seq::empty())
    } else {
        match entry_len(s) {
            Some(n) => if 0 < n <= s.len() {
                match property_ids(s.skip(n as int)) {
                    Some(ids) => Some(seq![s[0]] + ids),
                    None => None,
                }
            } else {
                None
            },
            None => None,
        }
    }
}

/// Whether an identifier other than User Property appears twice.
pub open spec fn has_repeat(ids: Seq<u8>) -> bool {
    exists|i: int, j: int|
        0 <= i < j < ids.len() && ids[i] == ids[j] && ids[i] != USER_PROPERTY
}

/// The Receive Maximum a well-formed block gives (its first one), or 65535
/// when it gives none.
pub open spec fn receive_maximum_of(s: Seq<u8>) -> nat
    decreases s.len(),
{
    if s.len() == 0 {
        65535
    } else {
        match entry_len(s) {
            Some(n) => if 0 < n <= s.len() {
                if s[0] == RECEIVE_MAXIMUM_ID {
                    s[1] as nat * 256 + s[2] as nat
                } else {
                    receive_maximum_of(s.skip(n as int))
                }
            } else {
                65535
            },
            None => 65535,
        }
    }
}

fn prefixed_len_at(s: &[u8], pos: usize) -> (r: Option<usize>)
    requires
        pos <= s@.len(),
    ensures
        match r {
            Some(n) => prefixed_len(s@.skip(pos as int)) == Some(n as nat) && n <= s@.len() - pos,
            None => prefixed_len(s@.skip(pos as int)) is None,
        },
{
    let rest = s.len() - pos;
    if rest < 2 {
        return None;
    }
    let n: usize = s[pos] as usize * 256 + s[pos + 1] as usize;
    if 2 + n <= rest {
        Some(2 + n)
    } else {
        None
    }
}

fn entry_len_at(s: &[u8], pos: usize) -> (r: Option<usize>)
    requires
        pos <= s@.len(),
    ensures
        match r {
            Some(n) => entry_len(s@.skip(pos as int)) == Some(n as nat) && 0 < n <= s@.len() - pos,
            None => entry_len(s@.skip(pos as int)) is None,
        },
{
    let rest = s.len() - pos;
    if rest == 0 {
        return None;
    }
    let ghost t = s@.skip(pos as int);
    let id = s[pos];
    let v = pos + 1;
    proof {
        assert(t.skip(1) =~= s@.skip(v as int));
    }
    let k: u8 = if id == 0x01 || id == 0x17 || id == 0x19 || id == 0x24 || id == 0x25 || id == 0x28
        || id == 0x29 || id == 0x2A {
        1
    } else if id == 0x13 || id == 0x21 || id == 0x22 || id == 0x23 {
        2
    } else if id == 0x02 || id == 0x11 || id == 0x18 || id == 0x27 {
        4
    } else if id == 0x0B {
        5
    } else if id == 0x03 || id == 0x08 || id == 0x09 || id == 0x12 || id == 0x15 || id == 0x16
        || id == 0x1A || id == 0x1C || id == 0x1F {
        6
    } else if id == USER_PROPERTY {
        7
    } else {
        0
    };
    let n: usize = if k == 1 || k == 2 || k == 4 {
        if rest - 1 >= k as usize {
            k as usize
        } else {
            return None;
        }
    } else if k == 5 {
        match read_variable_integer(slice_subrange(s, v, s.len())) {
            Ok((_, m)) => m,
            Err(_) => return None,
        }
    } else if k == 6 {
        match prefixed_len_at(s, v) {
            Some(m) => m,
            None => return None,
        }
    } else if k == 7 {
        match prefixed_len_at(s, v) {
            Some(a) => {
                proof {
                    assert(s@.skip(v as int).skip(a as int) =~= s@.skip(v + a));
                }
                match prefixed_len_at(s, v + a) {
                    Some(b) => a + b,
                    None => return None,
                }
            },
            None => return None,
        }
    } else {
        return None;
    };
    if n <= rest - 1 {
        Some(1 + n)
    } else {
        None
    }
}

/// The identifiers of the block, or `None` when it is not well formed.
pub fn scan_properties(s: &[u8]) -> (r: Option<Vec<u8>>)
    ensures
        match r {
            Some(ids) => property_ids(s@) == Some(ids@),
            None => property_ids(s@) is None,
        },
{
    let mut out: Vec<u8> = Vec::new();
    let mut pos: usize = 0;
    proof {
        assert(s@.skip(0) =~= s@);
        if let Some(ids) = property_ids(s@) {
            assert(out@ + ids =~= ids);
        }
    }
    while pos < s.len()
        invariant
            pos <= s@.len(),
            property_ids(s@) == match property_ids(s@.skip(pos as int)) {
                Some(ids) => Some(out@ + ids),
                None => None::<Seq<u8>>,
            },
        decreases s@.len() - pos,
    {
        match entry_len_at(s, pos) {
            Some(n) => {
                proof {
                    assert(s@.skip(pos as int).skip(n as int) =~= s@.skip(pos + n));
                    assert(s@.skip(pos as int)[0] == s[pos as int]);
                    if let Some(ids) = property_ids(s@.skip(pos + n)) {
                        assert(out@ + (seq![s[pos as int]] + ids) =~= out@.push(s[pos as int]) + ids);
                    }
                }
                out.push(s[pos]);
                pos = pos + n;
            },
            None => return None,
        }
    }
    proof {
        assert(s@.skip(pos as int).len() == 0);
        assert(out@ + Seq::<u8>::empty() =~= out@);
    }
    Some(out)
}

/// Whether an identifier other than User Property appears twice.
pub fn repeats(ids: &Vec<u8>) -> (r: bool)
    ensures
        r == has_repeat(ids@),
{
    let mut j: usize = 0;
    while j < ids.len()
        invariant
            j <= ids@.len(),
            forall|a: int, b: int|
                0 <= a < b < j ==> !(ids@[a] == ids@[b] && ids@[a] != USER_PROPERTY),
        decreases ids@.len() - j,
    {
        let mut i: usize = 0;
        while i < j
            invariant
                i <= j < ids@.len(),
                forall|a: int| 0 <= a < i ==> !(ids@[a] == ids@[j as int] && ids@[a] != USER_PROPERTY),
            decreases j - i,
        {
            if ids[i] == ids[j] && ids[i] != USER_PROPERTY {
                return true;
            }
            i = i + 1;
        }
        j = j + 1;
    }
    false
}

/// The Receive Maximum a block gives, or 65535 when it gives none.
pub fn find_receive_maximum(s: &[u8]) -> (r: u32)
    ensures
        r == receive_maximum_of(s@),
{
    let mut pos: usize = 0;
    proof {
        assert(s@.skip(0) =~= s@);
    }
    while pos < s.len()
        invariant
            pos <= s@.len(),
            receive_maximum_of(s@) == receive_maximum_of(s@.skip(pos as int)),
        decreases s@.len() - pos,
    {
        match entry_len_at(s, pos) {
            Some(n) => {
                if s[pos] == RECEIVE_MAXIMUM_ID {
                    proof {
                        assert(s@.skip(pos as int)[1] == s[pos + 1]);
                        assert(s@.skip(pos as int)[2] == s[pos + 2]);
                    }
                    return s[pos + 1] as u32 * 256 + s[pos + 2] as u32;
                }
                proof {
                    assert(s@.skip(pos as int).skip(n as int) =~= s@.skip(pos + n));
                }
                pos = pos + n;
            },
            None => return 65535,
        }
    }
    proof {
        assert(s@.skip(pos as int).len() == 0);
    }
    65535
}

/// Whether property `id` may appear in a packet of type `t` (the high
/// nibble of the fixed header's first byte).
pub open spec fn allowed_in(t: u8, id: u8) -> bool {
    if id == USER_PROPERTY {
        true
    } else if id == 0x01 || id == 0x02 || id == 0x03 || id == 0x08 || id == 0x09 || id == 0x23 {
        t == 3
    } else if id == 0x0B {
        t == 3 || t == 8
    } else if id == 0x11 {
        t == 1 || t == 2 || t == 14
    } else if id == 0x15 || id == 0x16 {
        t == 1 || t == 2 || t == 15
    } else if id == 0x17 || id == 0x19 {
        t == 1
    } else if id == 0x21 || id == 0x22 || id == 0x27 {
        t == 1 || t == 2
    } else if id == 0x12 || id == 0x13 || id == 0x1A || id == 0x24 || id == 0x25 || id == 0x28
        || id == 0x29 || id == 0x2A {
        t == 2
    } else if id == 0x1C {
        t == 2 || t == 14
    } else if id == 0x1F {
        t == 2 || t == 4 || t == 5 || t == 6 || t == 7 || t == 9 || t == 11 || t == 14 || t == 15
    } else {
        false
    }
}

/// Whether every identifier may appear in a packet of type `t`.
pub open spec fn all_allowed(t: u8, ids: Seq<u8>) -> bool {
    forall|i: int| 0 <= i < ids.len() ==> allowed_in(t, #[trigger] ids[i])
}

fn is_allowed(t: u8, id: u8) -> (r: bool)
    ensures
        r == allowed_in(t, id),
{
    if id == USER_PROPERTY {
        true
    } else if id == 0x01 || id == 0x02 || id == 0x03 || id == 0x08 || id == 0x09 || id == 0x23 {
        t == 3
    } else if id == 0x0B {
        t == 3 || t == 8
    } else if id == 0x11 {
        t == 1 || t == 2 || t == 14
    } else if id == 0x15 || id == 0x16 {
        t == 1 || t == 2 || t == 15
    } else if id == 0x17 || id == 0x19 {
        t == 1
    } else if id == 0x21 || id == 0x22 || id == 0x27 {
        t == 1 || t == 2
    } else if id == 0x12 || id == 0x13 || id == 0x1A || id == 0x24 || id == 0x25 || id == 0x28
        || id == 0x29 || id == 0x2A {
        t == 2
    } else if id == 0x1C {
        t == 2 || t == 14
    } else if id == 0x1F {
        t == 2 || t == 4 || t == 5 || t == 6 || t == 7 || t == 9 || t == 11 || t == 14 || t == 15
    } else {
        false
    }
}

/// Whether every identifier may appear in a packet of type `t`.
pub fn check_allowed(t: u8, ids: &Vec<u8>) -> (r: bool)
    ensures
        r == all_allowed(t, ids@),
{
    let mut i: usize = 0;
    while i < ids.len()
        invariant
            i <= ids@.len(),
            forall|j: int| 0 <= j < i ==> allowed_in(t, #[trigger] ids@[j]),
        decreases ids@.len() - i,
    {
        if !is_allowed(t, ids[i]) {
            return false;
        }
        i = i + 1;
    }
    true
}

} // verus!
