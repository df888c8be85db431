//! The set of keys held down, as the window's event handler keeps it.
use vstd::prelude::*;

verus! {

/// `s` with every occurrence of `k` taken out, the rest in order.
pub open spec fn without(s: Seq<u32>, k: u32) -> Seq<u32>
    decreases s.len(),
{
    if s.len() == 0 {
        s
    } else if s.last() == k {
        without(s.drop_last(), k)
    } else {
        without(s.drop_last(), k).push(s.last())
    }
}

proof fn lemma_without_contains(s: Seq<u32>, k: u32, y: u32)
    ensures
        without(s, k).contains(y) <==> (s.contains(y) && y != k),
    decreases s.len(),
{
    if s.len() > 0 {
        let t = s.drop_last();
        lemma_without_contains(t, k, y);
        assert(s == t.push(s.last()));
        assert(s.contains(y) <==> (t.contains(y) || s.last() == y)) by {
            if s.contains(y) {
                let i = choose|i: int| 0 <= i < s.len() && s[i] == y;
                if i < t.len() {
                    assert(t[i] == y);
                }
            }
            if t.contains(y) {
                let i = choose|i: int| 0 <= i < t.len() && t[i] == y;
                assert(s[i] == y);
            }
            if s.last() == y {
                assert(s[s.len() - 1] == y);
            }
        }
        if s.last() != k {
            let w = without(t, k);
            assert(w.push(s.last()).contains(y) <==> (w.contains(y) || s.last() == y)) by {
                let v = w.push(s.last());
                if v.contains(y) {
                    let i = choose|i: int| 0 <= i < v.len() && v[i] == y;
                    if i < w.len() {
                        assert(w[i] == y);
                    }
                }
                if w.contains(y) {
                    let i = choose|i: int| 0 <= i < w.len() && w[i] == y;
                    assert(v[i] == y);
                }
                if s.last() == y {
                    assert(v[v.len() - 1] == y);
                }
            }
        }
    }
}

proof fn lemma_without_unique(s: Seq<u32>, k: u32)
    requires
        s.no_duplicates(),
    ensures
        without(s, k).no_duplicates(),
    decreases s.len(),
{
    if s.len() > 0 {
        let t = s.drop_last();
        assert(t.no_duplicates());
        lemma_without_unique(t, k);
        if s.last() != k {
            lemma_without_contains(t, k, s.last());
            assert(!t.contains(s.last()));
            let w = without(t, k);
            let v = w.push(s.last());
            assert forall|i: int, j: int| 0 <= i < v.len() && 0 <= j < v.len() && i != j implies v[i] != v[j] by {
                if i == v.len() - 1 && j < w.len() {
                    assert(w[j] == v[j]);
                    assert(w.contains(v[j]));
                } else if j == v.len() - 1 && i < w.len() {
                    assert(w[i] == v[i]);
                    assert(w.contains(v[i]));
                } else {
                    assert(v[i] == w[i] && v[j] == w[j]);
                }
            }
        }
    }
}

/// Keys currently held down, each once, in the order they were pressed.
/// A key is an integer key code.
pub struct HeldKeys {
    keys: Vec<u32>,
}

impl View for HeldKeys {
    type V = Seq<u32>;

    closed spec fn view(&self) -> Seq<u32> {
        self.keys@
    }
}

impl HeldKeys {
    /// No key is listed twice.
    pub closed spec fn wf(&self) -> bool {
        self.keys@.no_duplicates()
    }

    /// No key held.
    pub fn new() -> (r: HeldKeys)
        ensures
            r.wf(),
            r@ == Seq::<u32>::empty(),
    {
        HeldKeys { keys: Vec::new() }
    }

    /// Whether `key` is held.
    pub fn is_held(&self, key: u32) -> (r: bool)
        ensures
            r == self@.contains(key),
    {
        let mut i: usize = 0;
        while i < self.keys.len()
            invariant
                i <= self.keys@.len(),
                forall|j: int| 0 <= j < i ==> self.keys@[j] != key,
            decreases self.keys.len() - i,
        {
            if self.keys[i] == key {
                return true;
            }
            i = i + 1;
        }
        false
    }

    /// Records that `key` went down: it is appended unless already held.
    pub fn press(&mut self, key: u32)
        requires
            old(self).wf(),
        ensures
            final(self).wf(),
            final(self)@ == if old(self)@.contains(key) {
                old(self)@
            } else {
                old(self)@.push(key)
            },
    {
        if !self.is_held(key) {
            self.keys.push(key);
            proof {
                let s = self.keys@;
                let t = old(self).keys@;
                assert forall|i: int, j: int| 0 <= i < s.len() && 0 <= j < s.len() && i != j implies s[i] != s[j] by {
                    if i < t.len() && j < t.len() {
                        assert(s[i] == t[i] && s[j] == t[j]);
                    } else if i < t.len() {
                        assert(s[i] == t[i]);
                        assert(t.contains(s[i]));
                    } else {
                        assert(s[j] == t[j]);
                        assert(t.contains(s[j]));
                    }
                }
            }
        }
    }

    /// Records that `key` went up: it is no longer held, the others keep
    /// their order.
    pub fn release(&mut self, key: u32)
        requires
            old(self).wf(),
        ensures
            final(self).wf(),
            final(self)@ == without(old(self)@, key),
            !final(self)@.contains(key),
    {
        let mut kept: Vec<u32> = Vec::new();
        let mut i: usize = 0;
        while i < self.keys.len()
            invariant
                i <= self.keys@.len(),
                self.keys@ == old(self).keys@,
                kept@ == without(self.keys@.subrange(0, i as int), key),
            decreases self.keys.len() - i,
        {
            let k = self.keys[i];
            proof {
                let next = self.keys@.subrange(0, i + 1);
                assert(next.drop_last() =~= self.keys@.subrange(0, i as int));
                assert(next.last() == k);
            }
            if k != key {
                kept.push(k);
            }
            i = i + 1;
        }
        proof {
            assert(self.keys@.subrange(0, i as int) =~= self.keys@);
            lemma_without_unique(old(self).keys@, key);
            lemma_without_contains(old(self).keys@, key, key);
        }
        self.keys = kept;
    }

    /// The held keys, in the order they were pressed.
    pub fn snapshot(&self) -> (r: Vec<u32>)
        ensures
            r@ == self@,
    {
        self.keys.clone()
    }
}

} // verus!
