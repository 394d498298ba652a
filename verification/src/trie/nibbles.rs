//! Paths of nibbles.
use vstd::prelude::*;

verus! {

/// Whether every element is a nibble.
pub open spec fn all_nibbles(s: Seq<u8>) -> bool {
    forall|i: int| 0 <= i < s.len() ==> #[trigger] s[i] < 16
}

/// The length of the longest common prefix of `a` and `b`.
pub open spec fn lcp(a: Seq<u8>, b: Seq<u8>) -> nat {
    lcp_from(a, b, 0)
}

/// The first position from `i` on at which `a` and `b` do not both hold the same nibble.
pub open spec fn lcp_from(a: Seq<u8>, b: Seq<u8>, i: nat) -> nat
    decreases a.len() - i,
{
    if i < a.len() && i < b.len() && a[i as int] == b[i as int] {
        lcp_from(a, b, i + 1)
    } else {
        i
    }
}

/// Whether `b` comes after `a` in lexicographic order with neither a prefix of the other: at the
/// first position where they differ both have a nibble, and that of `b` is the larger one.
pub open spec fn follows(a: Seq<u8>, b: Seq<u8>) -> bool {
    &&& lcp(a, b) < a.len()
    &&& lcp(a, b) < b.len()
    &&& a[lcp(a, b) as int] < b[lcp(a, b) as int]
}

/// `lcp_from` is the first position from `i` on at which the sequences differ or one ends.
pub proof fn lemma_lcp_from(a: Seq<u8>, b: Seq<u8>, i: nat)
    requires
        i <= a.len(),
        i <= b.len(),
    ensures
        ({
            let k = lcp_from(a, b, i);
            &&& i <= k <= a.len()
            &&& k <= b.len()
            &&& forall|j: int| i <= j < k ==> #[trigger] a[j] == b[j]
            &&& k < a.len() && k < b.len() ==> a[k as int] != b[k as int]
        }),
    decreases a.len() - i,
{
    if i < a.len() && i < b.len() && a[i as int] == b[i as int] {
        lemma_lcp_from(a, b, i + 1);
    }
}

/// `lcp` is the length of a common prefix, and no longer prefix is common.
pub proof fn lemma_lcp(a: Seq<u8>, b: Seq<u8>)
    ensures
        lcp(a, b) <= a.len(),
        lcp(a, b) <= b.len(),
        forall|j: int| 0 <= j < lcp(a, b) ==> #[trigger] a[j] == b[j],
        lcp(a, b) < a.len() && lcp(a, b) < b.len() ==> a[lcp(a, b) as int] != b[lcp(a, b) as int],
{
    lemma_lcp_from(a, b, 0);
}

/// A common prefix after which the sequences differ, or one of them ends, is the longest.
pub proof fn lemma_lcp_unique(a: Seq<u8>, b: Seq<u8>, k: nat)
    requires
        k <= a.len(),
        k <= b.len(),
        forall|j: int| 0 <= j < k ==> #[trigger] a[j] == b[j],
        k == a.len() || k == b.len() || a[k as int] != b[k as int],
    ensures
        lcp(a, b) == k,
{
    lemma_lcp(a, b);
    if lcp(a, b) < k {
        assert(a[lcp(a, b) as int] == b[lcp(a, b) as int]);
    }
    if k < lcp(a, b) {
        assert(a[k as int] == b[k as int]);
    }
}

/// A path in the trie: a sequence of nibbles.
#[derive(Debug)]
pub struct Nibbles {
    nibbles: Vec<u8>,
}

impl View for Nibbles {
    type V = Seq<u8>;

    closed spec fn view(&self) -> Seq<u8> {
        self.nibbles@
    }
}

impl Clone for Nibbles {
    fn clone(&self) -> (r: Self)
        ensures
            r@ == self@,
    {
        self.slice(0, self.nibbles.len())
    }
}

impl Default for Nibbles {
    fn default() -> (r: Self)
        ensures
            r@ == Seq::<u8>::empty(),
    {
        Nibbles { nibbles: Vec::new() }
    }
}

impl Nibbles {
    /// Whether the path holds nibbles only.
    pub open spec fn wf(&self) -> bool {
        all_nibbles(self@)
    }

    /// The path of the given nibbles.
    pub fn from_nibbles(nibbles: Vec<u8>) -> (r: Self)
        requires
            all_nibbles(nibbles@),
        ensures
            r@ == nibbles@,
            r.wf(),
    {
        Nibbles { nibbles }
    }

    /// The path that holds the two nibbles of each byte, the high one first.
    pub fn unpack(bytes: &[u8]) -> (r: Self)
        ensures
            r.wf(),
            r@.len() == 2 * bytes@.len(),
            forall|i: int|
                0 <= i < bytes@.len() ==> r@[2 * i] == #[trigger] bytes@[i] / 16 && r@[2 * i + 1]
                    == bytes@[i] % 16,
    {
        let mut nibbles: Vec<u8> = Vec::new();
        let mut i: usize = 0;
        while i < bytes.len()
            invariant
                i <= bytes@.len(),
                nibbles@.len() == 2 * i,
                all_nibbles(nibbles@),
                forall|j: int|
                    0 <= j < i ==> nibbles@[2 * j] == #[trigger] bytes@[j] / 16 && nibbles@[2 * j
                        + 1] == bytes@[j] % 16,
            decreases bytes@.len() - i,
        {
            nibbles.push(bytes[i] / 16);
            nibbles.push(bytes[i] % 16);
            i = i + 1;
        }
        Nibbles { nibbles }
    }

    /// The nibbles of the path.
    pub fn as_slice(&self) -> (r: &[u8])
        ensures
            r@ == self@,
    {
        self.nibbles.as_slice()
    }

    /// The number of nibbles.
    pub fn len(&self) -> (r: usize)
        ensures
            r == self@.len(),
    {
        self.nibbles.len()
    }

    /// Whether the path has no nibble.
    pub fn is_empty(&self) -> (r: bool)
        ensures
            r == (self@.len() == 0),
    {
        self.nibbles.len() == 0
    }

    /// The nibble at position `i`.
    pub fn at(&self, i: usize) -> (r: u8)
        requires
            i < self@.len(),
        ensures
            r == self@[i as int],
    {
        self.nibbles[i]
    }

    /// The part of the path from position `from` up to `to`.
    pub fn slice(&self, from: usize, to: usize) -> (r: Self)
        requires
            from <= to <= self@.len(),
        ensures
            r@ == self@.subrange(from as int, to as int),
    {
        let mut nibbles: Vec<u8> = Vec::new();
        let mut i: usize = from;
        while i < to
            invariant
                from <= i <= to <= self@.len(),
                nibbles@ == self@.subrange(from as int, i as int),
            decreases to - i,
        {
            nibbles.push(self.nibbles[i]);
            assert(nibbles@ =~= self@.subrange(from as int, i + 1));
            i = i + 1;
        }
        Nibbles { nibbles }
    }

    /// Keeps the first `len` nibbles.
    pub fn truncate(&mut self, len: usize)
        requires
            len <= old(self)@.len(),
        ensures
            final(self)@ == old(self)@.take(len as int),
    {
        self.nibbles.truncate(len);
    }

    /// Removes all nibbles.
    pub fn clear(&mut self)
        ensures
            final(self)@ == Seq::<u8>::empty(),
    {
        self.nibbles.clear();
    }

    /// The length of the longest prefix that the two paths share.
    pub fn common_prefix_length(&self, other: &Nibbles) -> (r: usize)
        ensures
            r == lcp(self@, other@),
    {
        let mut i: usize = 0;
        while i < self.nibbles.len() && i < other.nibbles.len() && self.nibbles[i]
            == other.nibbles[i]
            invariant
                i <= self@.len(),
                i <= other@.len(),
                forall|j: int| 0 <= j < i ==> #[trigger] self@[j] == other@[j],
            decreases self@.len() - i,
        {
            i = i + 1;
        }
        proof {
            lemma_lcp_unique(self@, other@, i as nat);
        }
        i
    }

    /// Whether this path comes after `previous` and does not continue it.
    pub fn follows(&self, previous: &Nibbles) -> (r: bool)
        ensures
            r == follows(previous@, self@),
    {
        let len: usize = previous.common_prefix_length(self);
        len < previous.nibbles.len() && len < self.nibbles.len() && previous.nibbles[len]
            < self.nibbles[len]
    }
}

} // verus!
