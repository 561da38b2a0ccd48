//! An append-only, possibly fragmented byte store.
//!
//! Received bytes arrive in separate chunks; the buffer keeps each chunk as
//! its own fragment until a caller asks for a contiguous view. A codec may
//! query the length, scan for a byte, make the store contiguous, consume a
//! prefix destructively, and append bytes at the end.

use vstd::prelude::*;

verus! {

/// The bytes held by a sequence of fragments, in order.
pub open spec fn flatten_frags(fs: Seq<Vec<u8>>) -> Seq<u8>
    decreases fs.len(),
{
    if fs.len() == 0 {
        Seq::empty()
    } else {
        fs[0]@ + flatten_frags(fs.drop_first())
    }
}

proof fn lemma_flatten_frags_push(fs: Seq<Vec<u8>>, v: Vec<u8>)
    ensures
        flatten_frags(fs.push(v)) == flatten_frags(fs) + v@,
    decreases fs.len(),
{
    if fs.len() == 0 {
        reveal_with_fuel(flatten_frags, 2);
        assert(fs.push(v).drop_first() =~= Seq::<Vec<u8>>::empty());
        assert(flatten_frags(fs.push(v)) =~= flatten_frags(fs) + v@);
    } else {
        assert(fs.push(v).drop_first() =~= fs.drop_first().push(v));
        lemma_flatten_frags_push(fs.drop_first(), v);
        assert(flatten_frags(fs.push(v)) =~= flatten_frags(fs) + v@);
    }
}

proof fn lemma_flatten_frags_singleton(fs: Seq<Vec<u8>>)
    requires
        fs.len() <= 1,
    ensures
        flatten_frags(fs) == if fs.len() == 0 {
            Seq::<u8>::empty()
        } else {
            fs[0]@
        },
{
    reveal_with_fuel(flatten_frags, 2);
    if fs.len() == 1 {
        assert(fs.drop_first() =~= Seq::<Vec<u8>>::empty());
        assert(flatten_frags(fs) =~= fs[0]@);
    }
}

/// An append-only byte store whose contents may be split over several
/// fragments. Its view is the byte sequence the fragments hold, in order.
pub struct ByteBuffer {
    fragments: Vec<Vec<u8>>,
    total: usize,
}

impl ByteBuffer {
    /// The bytes stored, in order.
    pub closed spec fn view(&self) -> Seq<u8> {
        flatten_frags(self.fragments@)
    }

    /// The cached total length agrees with the stored bytes.
    pub closed spec fn wf(&self) -> bool {
        self.total as int == self.view().len()
    }

    /// Whether the stored bytes already sit in one contiguous fragment.
    pub closed spec fn spec_is_compact(&self) -> bool {
        self.fragments@.len() <= 1
    }

    pub fn new() -> (b: ByteBuffer)
        ensures
            b.wf(),
            b@ == Seq::<u8>::empty(),
            b.spec_is_compact(),
    {
        ByteBuffer { fragments: Vec::new(), total: 0 }
    }

    pub fn len(&self) -> (n: usize)
        requires
            self.wf(),
        ensures
            n == self@.len(),
    {
        self.total
    }

    pub fn is_empty(&self) -> (e: bool)
        requires
            self.wf(),
        ensures
            e == (self@.len() == 0),
    {
        self.total == 0
    }

    pub fn is_compact(&self) -> (c: bool)
        ensures
            c == self.spec_is_compact(),
    {
        self.fragments.len() <= 1
    }

    /// Append bytes as a new fragment at the end of the store.
    pub fn write_slice(&mut self, bytes: &[u8])
        requires
            old(self).wf(),
            old(self)@.len() + bytes@.len() <= usize::MAX,
        ensures
            final(self).wf(),
            final(self)@ == old(self)@ + bytes@,
    {
        let frag = vstd::slice::slice_to_vec(bytes);
        proof {
            lemma_flatten_frags_push(self.fragments@, frag);
        }
        self.total = self.total + frag.len();
        self.fragments.push(frag);
    }

    /// Append a single byte at the end of the store.
    pub fn write_byte(&mut self, byte: u8)
        requires
            old(self).wf(),
            old(self)@.len() + 1 <= usize::MAX,
        ensures
            final(self).wf(),
            final(self)@ == old(self)@ + seq![byte],
    {
        let mut frag: Vec<u8> = Vec::new();
        frag.push(byte);
        proof {
            lemma_flatten_frags_push(self.fragments@, frag);
        }
        self.total = self.total + 1;
        self.fragments.push(frag);
    }

    /// Merge all fragments into one, keeping the bytes unchanged.
    pub fn compact(&mut self)
        requires
            old(self).wf(),
        ensures
            final(self).wf(),
            final(self)@ == old(self)@,
            final(self).spec_is_compact(),
    {
        let mut merged: Vec<u8> = Vec::new();
        let ghost all = self@;
        while self.fragments.len() > 0
            invariant
                merged@ + flatten_frags(self.fragments@) == all,
                self.total as int == all.len(),
            decreases self.fragments@.len(),
        {
            let ghost pre = self.fragments@;
            let mut f = self.fragments.remove(0);
            proof {
                assert(pre.drop_first() =~= self.fragments@);
                assert((merged@ + f@) + flatten_frags(self.fragments@) =~= merged@ + (f@
                    + flatten_frags(self.fragments@)));
            }
            merged.append(&mut f);
        }
        proof {
            assert(merged@ + flatten_frags(self.fragments@) =~= merged@);
            lemma_flatten_frags_push(self.fragments@, merged);
            assert(flatten_frags(self.fragments@.push(merged)) =~= all);
        }
        self.fragments.push(merged);
    }

    /// Remove the first `n` bytes from the store and hand them back.
    /// The store must be contiguous, which a prior [`Self::compact`]
    /// guarantees.
    pub fn shift(&mut self, n: usize) -> (v: Vec<u8>)
        requires
            old(self).wf(),
            old(self).spec_is_compact(),
            n <= old(self)@.len(),
        ensures
            final(self).wf(),
            final(self).spec_is_compact(),
            v@ == old(self)@.take(n as int),
            final(self)@ == old(self)@.skip(n as int),
    {
        proof {
            lemma_flatten_frags_singleton(self.fragments@);
        }
        if self.fragments.len() == 0 {
            assert(old(self)@.take(n as int) =~= Seq::<u8>::empty());
            assert(old(self)@.skip(n as int) =~= Seq::<u8>::empty());
            return Vec::new();
        }
        let mut head = self.fragments.remove(0);
        let rest = head.split_off(n);
        proof {
            assert(self.fragments@ =~= Seq::<Vec<u8>>::empty());
            lemma_flatten_frags_singleton(self.fragments@.push(rest));
        }
        self.fragments.push(rest);
        self.total = self.total - n;
        head
    }

    /// Index of the first occurrence of `byte` in the stored bytes, if any.
    /// The store must be contiguous, which a prior [`Self::compact`]
    /// guarantees.
    pub fn find(&self, byte: u8) -> (r: Option<usize>)
        requires
            self.wf(),
            self.spec_is_compact(),
        ensures
            match r {
                Some(i) => 0 <= i < self@.len() && self@[i as int] == byte && (forall|j: int|
                    0 <= j < i ==> self@[j] != byte),
                None => forall|j: int| 0 <= j < self@.len() ==> self@[j] != byte,
            },
    {
        proof {
            lemma_flatten_frags_singleton(self.fragments@);
        }
        if self.fragments.len() == 0 {
            return None;
        }
        let frag: &Vec<u8> = &self.fragments[0];
        let mut i: usize = 0;
        while i < frag.len()
            invariant
                i <= frag@.len(),
                frag@ == self@,
                forall|j: int| 0 <= j < i ==> self@[j] != byte,
            decreases frag@.len() - i,
        {
            if frag[i] == byte {
                return Some(i);
            }
            i = i + 1;
        }
        None
    }
}

} // verus!
