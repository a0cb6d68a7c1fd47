//! LRU order of frames: most recently used first.
use super::frame::FrameId;
use vstd::prelude::*;

verus! {

/// Frames from most to least recently used.
#[derive(Debug, Clone)]
pub struct LruOrder {
    order: Vec<FrameId>,
}

impl View for LruOrder {
    type V = Seq<FrameId>;

    closed spec fn view(&self) -> Seq<FrameId> {
        self.order@
    }
}

/// `s` without any occurrence of `x`, order kept.
pub open spec fn spec_without(s: Seq<FrameId>, x: FrameId) -> Seq<FrameId>
    decreases s.len(),
{
    if s.len() == 0 {
        s
    } else if s.last() == x {
        spec_without(s.drop_last(), x)
    } else {
        spec_without(s.drop_last(), x).push(s.last())
    }
}

/// `spec_without` keeps exactly the other elements.
pub proof fn lemma_without_contains(s: Seq<FrameId>, x: FrameId, y: FrameId)
    ensures
        spec_without(s, x).contains(y) <==> (s.contains(y) && y != x),
    decreases s.len(),
{
    broadcast use vstd::seq_lib::lemma_seq_contains_after_push;

    if s.len() > 0 {
        lemma_without_contains(s.drop_last(), x, y);
        assert(s == s.drop_last().push(s.last()));
    }
}

/// `spec_without` of a sequence without duplicates has none either.
pub proof fn lemma_without_no_duplicates(s: Seq<FrameId>, x: FrameId)
    requires
        s.no_duplicates(),
    ensures
        spec_without(s, x).no_duplicates(),
    decreases s.len(),
{
    broadcast use vstd::seq_lib::lemma_seq_contains_after_push;

    if s.len() > 0 {
        let dl = s.drop_last();
        assert(dl.no_duplicates());
        lemma_without_no_duplicates(dl, x);
        if s.last() != x {
            lemma_without_contains(dl, x, s.last());
            assert(!dl.contains(s.last())) by {
                if dl.contains(s.last()) {
                    let i = choose|i: int| 0 <= i < dl.len() && dl[i] == s.last();
                    assert(s[i] == s[s.len() - 1]);
                }
            }
            let w = spec_without(dl, x);
            assert forall|i: int, j: int|
                0 <= i < w.push(s.last()).len() && 0 <= j < w.push(s.last()).len() && i != j implies
                w.push(s.last())[i] != w.push(s.last())[j] by {
                if i < w.len() && j < w.len() {
                } else if i == w.len() {
                    assert(w[j] == w.push(s.last())[j]);
                    assert(w.contains(w[j]));
                } else {
                    assert(w[i] == w.push(s.last())[i]);
                    assert(w.contains(w[i]));
                }
            }
        }
    }
}

/// Without an occurrence of `x`, `spec_without` changes nothing.
pub proof fn lemma_without_absent(s: Seq<FrameId>, x: FrameId)
    requires
        !s.contains(x),
    ensures
        spec_without(s, x) == s,
    decreases s.len(),
{
    if s.len() > 0 {
        let dl = s.drop_last();
        assert(!dl.contains(x)) by {
            if dl.contains(x) {
                let k = choose|k: int| 0 <= k < dl.len() && dl[k] == x;
                assert(s[k] == x);
            }
        }
        lemma_without_absent(dl, x);
        assert(s.len() - 1 >= 0 && s[s.len() - 1] != x);
        assert(dl.push(s.last()) =~= s);
    }
}

/// With a single occurrence of `x`, at `i`, `spec_without` removes just it.
pub proof fn lemma_without_at(s: Seq<FrameId>, x: FrameId, i: int)
    requires
        0 <= i < s.len(),
        s[i] == x,
        forall|j: int| 0 <= j < s.len() && j != i ==> s[j] != x,
    ensures
        spec_without(s, x) == s.remove(i),
    decreases s.len(),
{
    let dl = s.drop_last();
    if i == s.len() - 1 {
        assert(!dl.contains(x)) by {
            if dl.contains(x) {
                let k = choose|k: int| 0 <= k < dl.len() && dl[k] == x;
                assert(s[k] == x);
            }
        }
        lemma_without_absent(dl, x);
        assert(s.remove(i) =~= dl);
    } else {
        assert forall|j: int| 0 <= j < dl.len() && j != i implies dl[j] != x by {
            assert(dl[j] == s[j]);
        }
        lemma_without_at(dl, x, i);
        assert(s.remove(i) =~= dl.remove(i).push(s.last()));
    }
}

impl LruOrder {
    /// An empty order.
    pub fn new() -> (r: Self)
        ensures
            r@ == Seq::<FrameId>::empty(),
    {
        LruOrder { order: Vec::new() }
    }

    /// Marks `frame_id` most recently used: its first occurrence, if any,
    /// leaves its place and the frame goes to the front.
    pub fn touch(&mut self, frame_id: FrameId)
        ensures
            (exists|i: int|
                0 <= i < old(self)@.len() && old(self)@[i] == frame_id && (forall|j: int|
                    0 <= j < i ==> old(self)@[j] != frame_id) && final(self)@ == seq![frame_id]
                    + old(self)@.remove(i)) || (!old(self)@.contains(frame_id) && final(self)@
                == seq![frame_id] + old(self)@),
            old(self)@.no_duplicates() ==> final(self)@.no_duplicates(),
    {
        let mut pos: usize = 0;
        while pos < self.order.len()
            invariant
                pos <= self.order@.len(),
                self.order@ == old(self)@,
                forall|j: int| 0 <= j < pos ==> self.order@[j] != frame_id,
            ensures
                pos <= self.order@.len(),
                self.order@ == old(self)@,
                forall|j: int| 0 <= j < pos ==> self.order@[j] != frame_id,
                pos < self.order@.len() ==> self.order@[pos as int] == frame_id,
            decreases self.order@.len() - pos,
        {
            if self.order[pos] == frame_id {
                break ;
            }
            pos = pos + 1;
        }
        if pos < self.order.len() {
            self.order.remove(pos);
            self.order.insert(0, frame_id);
            assert(self@ =~= seq![frame_id] + old(self)@.remove(pos as int));
            assert(0 <= pos < old(self)@.len() && old(self)@[pos as int] == frame_id);
        } else {
            self.order.insert(0, frame_id);
            assert(self@ =~= seq![frame_id] + old(self)@);
        }
        proof {
            if old(self)@.no_duplicates() {
                super::pool::lemma_touch_keeps(old(self)@, self@, frame_id, usize::MAX as nat + 1);
            }
        }
    }

    /// Removes every occurrence of `frame_id`.
    pub fn remove(&mut self, frame_id: FrameId)
        ensures
            final(self)@ == spec_without(old(self)@, frame_id),
            old(self)@.no_duplicates() ==> final(self)@.no_duplicates(),
    {
        let mut kept: Vec<FrameId> = Vec::new();
        let mut i: usize = 0;
        while i < self.order.len()
            invariant
                i <= self.order@.len(),
                self.order@ == old(self)@,
                kept@ == spec_without(old(self)@.take(i as int), frame_id),
            decreases self.order@.len() - i,
        {
            let id = self.order[i];
            assert(old(self)@.take(i + 1).drop_last() =~= old(self)@.take(i as int));
            if id != frame_id {
                kept.push(id);
            }
            i = i + 1;
        }
        assert(old(self)@.take(i as int) =~= old(self)@);
        self.order = kept;
        proof {
            if old(self)@.no_duplicates() {
                lemma_without_no_duplicates(old(self)@, frame_id);
            }
        }
    }

    /// The frames from least to most recently used.
    pub fn iter_lru(&self) -> (r: Vec<FrameId>)
        ensures
            r@ == self@.reverse(),
    {
        let mut out: Vec<FrameId> = Vec::new();
        let mut i: usize = self.order.len();
        while i > 0
            invariant
                i <= self.order@.len(),
                out@.len() == self.order@.len() - i,
                forall|j: int| 0 <= j < out@.len() ==> out@[j] == self.order@[self.order@.len() - 1 - j],
            decreases i,
        {
            i = i - 1;
            out.push(self.order[i]);
        }
        assert(out@ =~= self@.reverse());
        out
    }
}

impl Default for LruOrder {
    fn default() -> (r: Self)
        ensures
            r@ == Seq::<FrameId>::empty(),
    {
        LruOrder::new()
    }
}

} // verus!
