use vstd::prelude::*;

verus! {

/// Largest number of nibbles in a path: one per four bits of a 256-bit digest.
pub const MAX_NIBBLES: usize = 64;

/// A 4-bit digit of a key path.
#[derive(Clone, Copy, Debug, PartialEq, Eq, PartialOrd, Ord, Hash)]
pub struct Nibble {
    value: u8,
}

impl View for Nibble {
    type V = u8;

    closed spec fn view(&self) -> u8 {
        self.value
    }
}

impl Nibble {
    #[verifier::type_invariant]
    spec fn inv(&self) -> bool {
        self.value < 16
    }

    pub fn new(value: u8) -> (r: Nibble)
        requires
            value < 16,
        ensures
            r@ == value,
    {
        Nibble { value }
    }

    pub fn value(&self) -> (r: u8)
        ensures
            r == self@,
            r < 16,
    {
        proof {
            use_type_invariant(self);
        }
        self.value
    }
}

/// The nibbles of a path, one per element, each below 16.
pub open spec fn valid_nibbles(s: Seq<u8>) -> bool {
    s.len() <= MAX_NIBBLES && forall|i: int| 0 <= i < s.len() ==> #[trigger] s[i] < 16
}

/// The packed form of a nibble sequence: two nibbles per byte, the first in the
/// upper half; an odd last nibble leaves the lower half zero.
pub open spec fn packed_byte(s: Seq<u8>, j: int) -> u8 {
    let hi = s[2 * j];
    let lo: u8 = if 2 * j + 1 < s.len() { s[2 * j + 1] } else { 0 };
    (hi * 16 + lo) as u8
}

pub open spec fn packed(s: Seq<u8>) -> Seq<u8> {
    Seq::new(((s.len() + 1) / 2) as nat, |j: int| packed_byte(s, j))
}

/// The nibbles that a packed byte string spells, `n` of them.
pub open spec fn unpacked(bytes: Seq<u8>, n: nat) -> Seq<u8> {
    Seq::new(n, |i: int| if i % 2 == 0 { bytes[i / 2] / 16 } else { bytes[i / 2] % 16 })
}

/// An ordered sequence of nibbles: a prefix of a key, at most 64 nibbles long.
#[derive(Clone, Debug, PartialEq, Eq, Hash)]
pub struct NibblePath {
    nibbles: Vec<u8>,
}

impl View for NibblePath {
    type V = Seq<u8>;

    closed spec fn view(&self) -> Seq<u8> {
        self.nibbles@
    }
}

impl NibblePath {
    pub open spec fn wf(&self) -> bool {
        valid_nibbles(self@)
    }

    fn from_bytes(bytes: &Vec<u8>, n: usize) -> (r: NibblePath)
        requires
            n <= 2 * bytes@.len(),
            n <= MAX_NIBBLES,
        ensures
            r@ == unpacked(bytes@, n as nat),
            r.wf(),
    {
        let mut nibbles: Vec<u8> = Vec::new();
        let mut i: usize = 0;
        while i < n
            invariant
                i <= n,
                n <= 2 * bytes@.len(),
                n <= MAX_NIBBLES,
                nibbles@ == unpacked(bytes@, i as nat),
            decreases n - i,
        {
            let b = bytes[i / 2];
            if i % 2 == 0 {
                nibbles.push(b / 16);
            } else {
                nibbles.push(b % 16);
            }
            assert(nibbles@ =~= unpacked(bytes@, (i + 1) as nat));
            i = i + 1;
        }
        NibblePath { nibbles }
    }

    /// A path of an even number of nibbles: two from each byte, upper half first.
    pub fn new(bytes: Vec<u8>) -> (r: NibblePath)
        requires
            bytes@.len() <= MAX_NIBBLES / 2,
        ensures
            r.wf(),
            r@ == unpacked(bytes@, 2 * bytes@.len()),
            packed(r@) == bytes@,
    {
        let n = bytes.len() * 2;
        let r = NibblePath::from_bytes(&bytes, n);
        proof {
            assert forall|j: int| 0 <= j < bytes@.len() implies packed_byte(r@, j) == bytes@[j] by {
                assert(r@[2 * j] == bytes@[j] / 16);
                assert(r@[2 * j + 1] == bytes@[j] % 16);
            }
            assert(packed(r@) =~= bytes@);
        }
        r
    }

    /// A path of an odd number of nibbles: the lower half of the last byte is
    /// padding and must be zero.
    pub fn new_odd(bytes: Vec<u8>) -> (r: NibblePath)
        requires
            0 < bytes@.len() <= MAX_NIBBLES / 2,
            bytes@.last() % 16 == 0,
        ensures
            r.wf(),
            r@ == unpacked(bytes@, (2 * bytes@.len() - 1) as nat),
            packed(r@) == bytes@,
    {
        let n = bytes.len() * 2 - 1;
        let r = NibblePath::from_bytes(&bytes, n);
        proof {
            assert forall|j: int| 0 <= j < bytes@.len() implies packed_byte(r@, j) == bytes@[j] by {
                assert(r@[2 * j] == bytes@[j] / 16);
                if 2 * j + 1 < r@.len() {
                    assert(r@[2 * j + 1] == bytes@[j] % 16);
                }
            }
            assert(packed(r@) =~= bytes@);
        }
        r
    }

    pub fn num_nibbles(&self) -> (r: usize)
        ensures
            r == self@.len(),
    {
        self.nibbles.len()
    }

    pub fn get_nibble(&self, i: usize) -> (r: Nibble)
        requires
            self.wf(),
            i < self@.len(),
        ensures
            r@ == self@[i as int],
    {
        Nibble::new(self.nibbles[i])
    }

    /// Appends one nibble; a full path of 64 nibbles cannot grow.
    pub fn push(&mut self, n: Nibble)
        requires
            old(self).wf(),
            old(self)@.len() < MAX_NIBBLES,
        ensures
            final(self).wf(),
            final(self)@ == old(self)@.push(n@),
    {
        let v = n.value();
        self.nibbles.push(v);
    }

    /// A copy of this path with one more nibble at its end.
    pub fn extended(&self, n: Nibble) -> (r: NibblePath)
        requires
            self.wf(),
            self@.len() < MAX_NIBBLES,
        ensures
            r.wf(),
            r@ == self@.push(n@),
    {
        let mut nibbles: Vec<u8> = Vec::new();
        let mut i: usize = 0;
        while i < self.nibbles.len()
            invariant
                i <= self@.len(),
                nibbles@ == self@.subrange(0, i as int),
            decreases self@.len() - i,
        {
            nibbles.push(self.nibbles[i]);
            assert(nibbles@ =~= self@.subrange(0, i + 1));
            i = i + 1;
        }
        assert(nibbles@ =~= self@);
        let mut r = NibblePath { nibbles };
        r.push(n);
        r
    }

    /// The packed bytes of the path.
    pub fn bytes(&self) -> (r: Vec<u8>)
        requires
            self.wf(),
        ensures
            r@ == packed(self@),
    {
        let n = self.nibbles.len();
        let mut out: Vec<u8> = Vec::new();
        let mut j: usize = 0;
        while 2 * j < n
            invariant
                self.wf(),
                n == self@.len(),
                2 * j <= n + 1,
                out@ == packed(self@).subrange(0, j as int),
            decreases n + 1 - 2 * j,
        {
            let hi = self.nibbles[2 * j];
            let lo: u8 = if 2 * j + 1 < n { self.nibbles[2 * j + 1] } else { 0 };
            assert(hi < 16 && lo < 16);
            out.push(hi * 16 + lo);
            assert(out@ =~= packed(self@).subrange(0, j + 1));
            j = j + 1;
        }
        assert(out@ =~= packed(self@));
        out
    }
}

} // verus!
