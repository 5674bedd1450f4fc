//! Sets of byte values, the labels of an automaton's edges.
use vstd::prelude::*;

verus! {

/// A set of byte values, held as one membership flag for each of the 256 bytes.
#[derive(Debug)]
pub struct ByteSet {
    pub flags: Vec<bool>,
}

impl View for ByteSet {
    type V = Set<u8>;

    open spec fn view(&self) -> Set<u8> {
        Set::new(|b: u8| (b as int) < self.flags@.len() && self.flags@[b as int])
    }
}

/// The members of `s` below `upto`, in ascending order.
pub open spec fn members_below(s: Set<u8>, upto: nat) -> Seq<u8>
    decreases upto,
{
    if upto == 0 || upto > 256 {
        Seq::empty()
    } else if s.contains((upto - 1) as u8) {
        members_below(s, (upto - 1) as nat).push((upto - 1) as u8)
    } else {
        members_below(s, (upto - 1) as nat)
    }
}

/// The members of `s` in ascending order.
pub open spec fn members(s: Set<u8>) -> Seq<u8> {
    members_below(s, 256)
}

/// `members_below` lists exactly the members under the bound, each once, ascending.
pub proof fn lemma_members_below(s: Set<u8>, upto: nat)
    requires
        upto <= 256,
    ensures
        members_below(s, upto).len() <= upto,
        forall|i: int|
            0 <= i < members_below(s, upto).len() ==> s.contains(
                #[trigger] members_below(s, upto)[i],
            ) && members_below(s, upto)[i] < upto,
        forall|i: int, j: int|
            0 <= i < j < members_below(s, upto).len() ==> members_below(s, upto)[i]
                < members_below(s, upto)[j],
        forall|b: u8| s.contains(b) && b < upto ==> members_below(s, upto).contains(b),
    decreases upto,
{
    if upto > 0 {
        let prev = members_below(s, (upto - 1) as nat);
        lemma_members_below(s, (upto - 1) as nat);
        let cur = members_below(s, upto);
        let top = (upto - 1) as u8;
        assert forall|b: u8| s.contains(b) && b < upto implies cur.contains(b) by {
            if b < upto - 1 {
                assert(prev.contains(b));
                let k = choose|k: int| 0 <= k < prev.len() && prev[k] == b;
                assert(cur[k] == b);
            } else {
                assert(b == top);
                assert(cur[cur.len() - 1] == b);
            }
        }
    }
}

impl Clone for ByteSet {
    fn clone(&self) -> (r: Self)
        ensures
            r.flags@ == self.flags@,
            r@ == self@,
    {
        let r = ByteSet { flags: self.flags.clone() };
        assert(r.flags@ =~= self.flags@);
        r
    }
}

impl ByteSet {
    /// The type's invariant: one flag for each byte value.
    pub open spec fn wf(&self) -> bool {
        self.flags@.len() == 256
    }

    /// The empty set.
    pub fn new() -> (r: ByteSet)
        ensures
            r.wf(),
            r@ == Set::<u8>::empty(),
    {
        let r = ByteSet { flags: vec![false; 256] };
        assert(r@ =~= Set::<u8>::empty());
        r
    }

    /// Whether `b` is a member.
    pub fn contains(&self, b: u8) -> (r: bool)
        requires
            self.wf(),
        ensures
            r == self@.contains(b),
    {
        self.flags[b as usize]
    }

    /// Adds `b`.
    pub fn insert(&mut self, b: u8)
        requires
            old(self).wf(),
        ensures
            final(self).wf(),
            final(self)@ == old(self)@.insert(b),
    {
        self.flags.set(b as usize, true);
        assert(self@ =~= old(self)@.insert(b));
    }

    /// Adds every byte from `lo` to `hi`, both included; none where `lo > hi`.
    pub fn insert_range(&mut self, lo: u8, hi: u8)
        requires
            old(self).wf(),
        ensures
            final(self).wf(),
            final(self)@ == old(self)@.union(byte_range(lo, hi)),
    {
        let mut b: usize = lo as usize;
        let end: usize = hi as usize + 1;
        while b < end
            invariant
                self.wf(),
                end == hi as usize + 1,
                lo <= b,
                b <= end || b == lo,
                forall|x: u8|
                    self@.contains(x) <==> (old(self)@.contains(x) || (lo <= x && (x as int) < b)),
            decreases end - b,
        {
            let ghost before = self@;
            self.flags.set(b, true);
            assert(self@ =~= before.insert(b as u8));
            b = b + 1;
        }
        assert(self@ =~= old(self)@.union(byte_range(lo, hi)));
    }

    /// Whether the set has no member.
    pub fn is_empty(&self) -> (r: bool)
        requires
            self.wf(),
        ensures
            r == (self@ == Set::<u8>::empty()),
    {
        let mut b: usize = 0;
        while b < 256
            invariant
                self.wf(),
                b <= 256,
                forall|x: u8| (x as int) < b ==> !self@.contains(x),
            decreases 256 - b,
        {
            if self.flags[b] {
                assert(self@.contains(b as u8));
                return false;
            }
            b = b + 1;
        }
        assert(self@ =~= Set::<u8>::empty());
        true
    }

    /// The members in ascending order.
    pub fn to_vec(&self) -> (r: Vec<u8>)
        requires
            self.wf(),
        ensures
            r@ == members(self@),
    {
        let mut out: Vec<u8> = Vec::new();
        let mut b: usize = 0;
        while b < 256
            invariant
                self.wf(),
                b <= 256,
                out@ == members_below(self@, b as nat),
            decreases 256 - b,
        {
            if self.flags[b] {
                out.push(b as u8);
            }
            b = b + 1;
        }
        out
    }

    /// The set of the bytes in `bytes`.
    pub fn from_slice(bytes: &[u8]) -> (r: ByteSet)
        ensures
            r.wf(),
            r@ == bytes@.to_set(),
    {
        let mut r = ByteSet::new();
        let mut i: usize = 0;
        while i < bytes.len()
            invariant
                r.wf(),
                i <= bytes.len(),
                forall|x: u8| r@.contains(x) <==> bytes@.take(i as int).contains(x),
            decreases bytes.len() - i,
        {
            let ghost before = r@;
            r.insert(bytes[i]);
            proof {
                let t0 = bytes@.take(i as int);
                let t1 = bytes@.take(i + 1);
                assert(t1 =~= t0.push(bytes@[i as int]));
                assert forall|x: u8| r@.contains(x) <==> t1.contains(x) by {
                    if t1.contains(x) {
                        let k = choose|k: int| 0 <= k < t1.len() && t1[k] == x;
                        if k < i {
                            assert(t0[k] == x);
                        }
                    }
                    if before.contains(x) {
                        let k = choose|k: int| 0 <= k < t0.len() && t0[k] == x;
                        assert(t1[k] == x);
                    }
                    if x == bytes@[i as int] {
                        assert(t1[i as int] == x);
                    }
                }
            }
            i = i + 1;
        }
        assert(bytes@.take(bytes.len() as int) =~= bytes@);
        assert(r@ =~= bytes@.to_set());
        r
    }

    /// Whether the two sets have no member in common.
    pub fn is_disjoint(&self, other: &ByteSet) -> (r: bool)
        requires
            self.wf(),
            other.wf(),
        ensures
            r == self@.disjoint(other@),
    {
        let mut b: usize = 0;
        while b < 256
            invariant
                self.wf(),
                other.wf(),
                b <= 256,
                forall|x: u8| (x as int) < b ==> !(self@.contains(x) && other@.contains(x)),
            decreases 256 - b,
        {
            if self.flags[b] && other.flags[b] {
                assert(self@.contains(b as u8) && other@.contains(b as u8));
                return false;
            }
            b = b + 1;
        }
        true
    }
}

/// Two sets with the same members are held by the same flags.
pub proof fn lemma_same_set_same_flags(a: ByteSet, b: ByteSet)
    requires
        a.wf(),
        b.wf(),
        a@ == b@,
    ensures
        a.flags@ == b.flags@,
{
    assert forall|i: int| 0 <= i < 256 implies a.flags@[i] == b.flags@[i] by {
        let x = i as u8;
        assert(x as int == i);
        assert(a@.contains(x) <==> a.flags@[x as int]);
        assert(b@.contains(x) <==> b.flags@[x as int]);
    }
    assert(a.flags@ =~= b.flags@);
}

/// The bytes from `lo` to `hi`, both included.
pub open spec fn byte_range(lo: u8, hi: u8) -> Set<u8> {
    Set::new(|x: u8| lo <= x <= hi)
}

} // verus!
