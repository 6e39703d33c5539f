//! Object ids: the 20 bytes by which the object store names a commit, and
//! their text of 40 lowercase hexadecimal digits.

use vstd::prelude::*;
use crate::text::{chars_of, string_of};

verus! {

/// The id of an object. Two ids are equal when their bytes are.
#[derive(Clone, Copy, Debug, PartialEq, Eq, PartialOrd, Ord, Hash)]
pub struct Oid {
    pub bytes: [u8; 20],
}

/// A lowercase hexadecimal digit.
pub open spec fn is_hex(c: char) -> bool {
    let u = c as u32;
    (48 <= u <= 57) || (97 <= u <= 102)
}

/// The number that a hexadecimal digit stands for.
pub open spec fn hex_value(c: char) -> int {
    let u = c as u32;
    if u <= 57 {
        u - 48
    } else {
        u - 87
    }
}

/// The hexadecimal digit that stands for `n`, a number below sixteen.
pub open spec fn hex_digit(n: int) -> char {
    if n < 10 {
        ((n + 48) as u8) as char
    } else {
        ((n + 87) as u8) as char
    }
}

/// The hexadecimal text of some bytes: two digits for each byte, the high
/// half first.
pub open spec fn hex_text(bytes: Seq<u8>) -> Seq<char> {
    Seq::new(
        2 * bytes.len(),
        |i: int|
            hex_digit(
                if i % 2 == 0 {
                    bytes[i / 2] as int / 16
                } else {
                    bytes[i / 2] as int % 16
                },
            ),
    )
}

/// Whether `s` is the text of an id: 40 lowercase hexadecimal digits.
pub open spec fn is_oid_text(s: Seq<char>) -> bool {
    s.len() == 40 && forall|i: int| 0 <= i < 40 ==> is_hex(#[trigger] s[i])
}

/// Ids with the same text are the same id.
pub proof fn lemma_hex_injective(a: Oid, b: Oid)
    requires
        a.hex() == b.hex(),
    ensures
        a == b,
{
    assert forall|i: int| 0 <= i < 20 implies a.bytes@[i] == b.bytes@[i] by {
        let x = a.bytes@[i] as int;
        let y = b.bytes@[i] as int;
        assert((2 * i) % 2 == 0 && (2 * i) / 2 == i);
        assert((2 * i + 1) % 2 == 1 && (2 * i + 1) / 2 == i);
        assert(a.hex()[2 * i] == hex_digit(x / 16));
        assert(b.hex()[2 * i] == hex_digit(y / 16));
        assert(a.hex()[2 * i + 1] == hex_digit(x % 16));
        assert(b.hex()[2 * i + 1] == hex_digit(y % 16));
        assert(0 <= x / 16 < 16 && 0 <= y / 16 < 16);
        assert(x / 16 == y / 16);
        assert(x % 16 == y % 16);
    }
    assert(a.bytes =~= b.bytes);
}

/// The text of an id is 40 lowercase hexadecimal digits.
pub proof fn lemma_hex_is_oid_text(a: Oid)
    ensures
        is_oid_text(a.hex()),
{
    assert forall|i: int| 0 <= i < 40 implies is_hex(#[trigger] a.hex()[i]) by {
        let x = a.bytes@[i / 2] as int;
        assert(0 <= x / 16 < 16);
        assert(0 <= x % 16 < 16);
    }
}

/// The number that `c` stands for, if it is a lowercase hexadecimal digit.
fn hex_val(c: char) -> (r: Option<u8>)
    ensures
        r is Some <==> is_hex(c),
        r is Some ==> r.unwrap() == hex_value(c) && r.unwrap() < 16 && hex_digit(
            r.unwrap() as int,
        ) == c,
{
    let u: u32 = c as u32;
    if 48 <= u && u <= 57 {
        Some((u - 48) as u8)
    } else if 97 <= u && u <= 102 {
        Some((u - 87) as u8)
    } else {
        None
    }
}

/// The hexadecimal digit that stands for `n`.
fn hex_char(n: u8) -> (c: char)
    requires
        n < 16,
    ensures
        c == hex_digit(n as int),
{
    if n < 10 {
        (n + 48) as char
    } else {
        (n + 87) as char
    }
}

/// Whether the bytes `a` come before the bytes `b`: at the first place in
/// which they differ, `a` has the smaller byte.
pub open spec fn bytes_before(a: Seq<u8>, b: Seq<u8>) -> bool {
    exists|i: int|
        0 <= i < a.len() && i < b.len() && a[i] < b[i] && forall|j: int|
            0 <= j < i ==> a[j] == b[j]
}

impl Oid {
    /// The text of this id: 40 lowercase hexadecimal digits.
    pub open spec fn hex(self) -> Seq<char> {
        hex_text(self.bytes@)
    }

    /// Reads an id from its text. Only a text of 40 lowercase hexadecimal
    /// digits is one.
    pub fn from_chars(v: &[char]) -> (r: Option<Oid>)
        ensures
            r is Some <==> is_oid_text(v@),
            r is Some ==> r.unwrap().hex() == v@,
    {
        if v.len() != 40 {
            return None;
        }
        let mut bytes: [u8; 20] = [0u8;20];
        let mut i: usize = 0;
        while i < 20
            invariant
                i <= 20,
                v.len() == 40,
                forall|k: int| 0 <= k < 2 * i ==> is_hex(#[trigger] v@[k]),
                forall|j: int|
                    0 <= j < i ==> hex_digit(#[trigger] bytes@[j] as int / 16) == v@[2 * j]
                        && hex_digit(bytes@[j] as int % 16) == v@[2 * j + 1],
            decreases 20 - i,
        {
            let hi = hex_val(v[2 * i]);
            let lo = hex_val(v[2 * i + 1]);
            match (hi, lo) {
                (Some(h), Some(l)) => {
                    let b: u8 = h * 16 + l;
                    assert(b as int / 16 == h && b as int % 16 == l);
                    bytes[i] = b;
                },
                _ => {
                    return None;
                },
            }
            i += 1;
        }
        let o = Oid { bytes };
        proof {
            assert forall|k: int| 0 <= k < 40 implies #[trigger] o.hex()[k] == v@[k] by {
                let j = k / 2;
                assert(0 <= j < 20);
                assert(hex_digit(bytes@[j] as int / 16) == v@[2 * j]);
            }
            assert(o.hex() =~= v@);
        }
        Some(o)
    }

    /// Reads an id from its text. Only a text of 40 lowercase hexadecimal
    /// digits is one.
    pub fn from_hex(s: &str) -> (r: Option<Oid>)
        ensures
            r is Some <==> is_oid_text(s@),
            r is Some ==> r.unwrap().hex() == s@,
    {
        let v = chars_of(s);
        Oid::from_chars(v.as_slice())
    }

    /// The characters of the text of this id.
    pub fn to_chars(&self) -> (out: Vec<char>)
        ensures
            out@ == self.hex(),
    {
        let mut out: Vec<char> = Vec::new();
        let mut i: usize = 0;
        while i < 20
            invariant
                i <= 20,
                out.len() == 2 * i,
                forall|k: int| 0 <= k < 2 * i ==> #[trigger] out@[k] == self.hex()[k],
            decreases 20 - i,
        {
            let b = self.bytes[i];
            out.push(hex_char(b / 16));
            out.push(hex_char(b % 16));
            i += 1;
        }
        proof {
            assert(out@ =~= self.hex());
        }
        out
    }

    /// The text of this id.
    pub fn to_hex(&self) -> (out: String)
        ensures
            out@ == self.hex(),
    {
        let v = self.to_chars();
        string_of(v.as_slice())
    }

    /// Whether the two ids are the same.
    pub fn same(&self, other: &Oid) -> (r: bool)
        ensures
            r == (*self == *other),
    {
        let mut i: usize = 0;
        while i < 20
            invariant
                i <= 20,
                forall|j: int| 0 <= j < i ==> self.bytes@[j] == other.bytes@[j],
            decreases 20 - i,
        {
            if self.bytes[i] != other.bytes[i] {
                return false;
            }
            i += 1;
        }
        proof {
            assert(self.bytes =~= other.bytes);
        }
        true
    }

    /// Whether this id comes before `other` in the order of ids, which is
    /// that of their bytes.
    pub fn before(&self, other: &Oid) -> (r: bool)
        ensures
            r == bytes_before(self.bytes@, other.bytes@),
    {
        let mut i: usize = 0;
        while i < 20
            invariant
                i <= 20,
                forall|j: int| 0 <= j < i ==> self.bytes@[j] == other.bytes@[j],
            decreases 20 - i,
        {
            if self.bytes[i] != other.bytes[i] {
                let r = self.bytes[i] < other.bytes[i];
                proof {
                    if !r && bytes_before(self.bytes@, other.bytes@) {
                        let k = choose|k: int|
                            0 <= k < 20 && self.bytes@[k] < other.bytes@[k] && forall|j: int|
                                0 <= j < k ==> self.bytes@[j] == other.bytes@[j];
                        if k > i {
                            assert(self.bytes@[i as int] == other.bytes@[i as int]);
                        }
                    }
                }
                return r;
            }
            i += 1;
        }
        false
    }
}

} // verus!
