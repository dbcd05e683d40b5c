//! Texts that can be found again.
use vstd::prelude::*;
use vstd::utf8::char_is_scalar;

verus! {

/// What spreads texts over buckets.
pub open spec fn hash_of(s: Seq<char>) -> int
    decreases s.len(),
{
    if s.len() == 0 {
        0
    } else {
        (hash_of(s.drop_last()) * 31 + (s.last() as u32) as int) % 1_000_000_007
    }
}

/// The first position of a text.
pub open spec fn first_at(keys: Seq<Seq<char>>, key: Seq<char>) -> Option<int>
    decreases keys.len(),
{
    if keys.len() == 0 {
        None
    } else if first_at(keys.drop_last(), key) is Some {
        first_at(keys.drop_last(), key)
    } else if keys.last() == key {
        Some(keys.len() - 1)
    } else {
        None
    }
}

/// A position that holds a text and none before it does is the first.
pub proof fn lemma_first_at(keys: Seq<Seq<char>>, key: Seq<char>, i: int)
    requires
        0 <= i < keys.len(),
        keys[i] == key,
        forall|j: int| 0 <= j < i ==> #[trigger] keys[j] != key,
    ensures
        first_at(keys, key) == Some(i),
    decreases keys.len(),
{
    let init = keys.drop_last();
    if i < keys.len() - 1 {
        assert forall|j: int| 0 <= j < i implies #[trigger] init[j] != key by {
            assert(init[j] == keys[j]);
        }
        lemma_first_at(init, key, i);
    } else {
        assert forall|j: int| 0 <= j < init.len() implies #[trigger] init[j] != key by {
            assert(init[j] == keys[j]);
        }
        lemma_nowhere(init, key);
    }
}

/// A text that no position holds has no first one.
pub proof fn lemma_nowhere(keys: Seq<Seq<char>>, key: Seq<char>)
    requires
        forall|j: int| 0 <= j < keys.len() ==> #[trigger] keys[j] != key,
    ensures
        first_at(keys, key) is None,
    decreases keys.len(),
{
    if keys.len() > 0 {
        let init = keys.drop_last();
        assert forall|j: int| 0 <= j < init.len() implies #[trigger] init[j] != key by {
            assert(init[j] == keys[j]);
        }
        lemma_nowhere(init, key);
        assert(keys.last() == keys[keys.len() - 1]);
    }
}

/// The first position of a text holds it.
pub proof fn lemma_first_holds(keys: Seq<Seq<char>>, key: Seq<char>)
    ensures
        match first_at(keys, key) {
            Some(i) => 0 <= i < keys.len() && keys[i] == key,
            None => forall|j: int| 0 <= j < keys.len() ==> #[trigger] keys[j] != key,
        },
    decreases keys.len(),
{
    if keys.len() > 0 {
        let init = keys.drop_last();
        lemma_first_holds(init, key);
        assert(keys.last() == keys[keys.len() - 1]);
        match first_at(init, key) {
            Some(i) => {
                assert(init[i] == keys[i]);
            },
            None => {
                if keys.last() != key {
                    assert forall|j: int| 0 <= j < keys.len() implies #[trigger] keys[j] != key by {
                        if j < init.len() {
                            assert(init[j] == keys[j]);
                        }
                    }
                }
            },
        }
    }
}

/// The texts of a list.
pub open spec fn texts_of(v: Seq<Vec<char>>) -> Seq<Seq<char>> {
    Seq::new(v.len(), |i: int| v[i]@)
}

fn hash_exec(s: &[char]) -> (h: u64)
    ensures
        h == hash_of(s@),
        h < 1_000_000_007,
{
    let mut h: u64 = 0;
    let mut i: usize = 0;
    while i < s.len()
        invariant
            i <= s@.len(),
            h == hash_of(s@.subrange(0, i as int)),
            h < 1_000_000_007,
        decreases s@.len() - i,
    {
        proof {
            let next = s@.subrange(0, i + 1);
            assert(next.drop_last() =~= s@.subrange(0, i as int));
        }
        let c: u32 = s[i] as u32;
        proof {
            char_is_scalar(s@[i as int]);
        }
        h = (h * 31 + c as u64) % 1_000_000_007;
        i = i + 1;
    }
    assert(s@.subrange(0, s@.len() as int) =~= s@);
    h
}

/// Whether two texts are the same.
pub fn same_chars(a: &[char], b: &[char]) -> (r: bool)
    ensures
        r == (a@ == b@),
{
    if a.len() != b.len() {
        return false;
    }
    let mut i: usize = 0;
    while i < a.len()
        invariant
            i <= a@.len(),
            a@.len() == b@.len(),
            forall|j: int| 0 <= j < i ==> a@[j] == b@[j],
        decreases a@.len() - i,
    {
        if a[i] != b[i] {
            return false;
        }
        i = i + 1;
    }
    assert(a@ =~= b@);
    true
}

/// Texts, spread over buckets by which they are found again.
pub struct TextIndex {
    pub keys: Vec<Vec<char>>,
    pub buckets: Vec<Vec<usize>>,
}

impl TextIndex {
    /// The texts, in the order in which they were entered.
    pub open spec fn view(self) -> Seq<Seq<char>> {
        texts_of(self.keys@)
    }

    /// The bucket of a text.
    pub open spec fn home(self, key: Seq<char>) -> int {
        hash_of(key) % self.buckets@.len() as int
    }

    /// Each bucket holds positions of its own texts, in increasing order.
    pub open spec fn bucket_ok(self, b: int) -> bool {
        &&& forall|t: int|
            0 <= t < self.buckets@[b]@.len() ==> #[trigger] self.buckets@[b]@[t] < self.keys@.len()
                && self.home(self.keys@[self.buckets@[b]@[t] as int]@) == b
        &&& forall|s: int, t: int|
            0 <= s < t < self.buckets@[b]@.len() ==> #[trigger] self.buckets@[b]@[s]
                < #[trigger] self.buckets@[b]@[t]
    }

    /// The position is in the bucket of its text.
    pub open spec fn is_filed(self, i: int) -> bool {
        self.buckets@[self.home(self.keys@[i]@)]@.contains(i as usize)
    }

    /// Every text is in its bucket.
    pub open spec fn wf(self) -> bool {
        &&& self.buckets@.len() > 0
        &&& forall|b: int| 0 <= b < self.buckets@.len() ==> #[trigger] self.bucket_ok(b)
        &&& forall|i: int| 0 <= i < self.keys@.len() ==> #[trigger] self.is_filed(i)
    }

    /// No texts, in `n` buckets or one.
    pub fn new(n: usize) -> (x: TextIndex)
        ensures
            x.wf(),
            x@ == Seq::<Seq<char>>::empty(),
    {
        let mut buckets: Vec<Vec<usize>> = Vec::new();
        buckets.push(Vec::new());
        let mut i: usize = 1;
        while i < n
            invariant
                buckets@.len() >= 1,
                forall|b: int| 0 <= b < buckets@.len() ==> (#[trigger] buckets@[b])@.len() == 0,
            decreases n - i,
        {
            buckets.push(Vec::new());
            i = i + 1;
        }
        let x = TextIndex { keys: Vec::new(), buckets };
        assert(x@ =~= Seq::<Seq<char>>::empty());
        x
    }

    /// Enters a text behind the others.
    pub fn push(&mut self, key: Vec<char>)
        requires
            old(self).wf(),
        ensures
            final(self).wf(),
            final(self)@ == old(self)@.push(key@),
    {
        let n: usize = self.keys.len();
        let h: u64 = hash_exec(key.as_slice());
        let count: usize = self.buckets.len();
        let b: usize = (h % count as u64) as usize;
        let ghost before = *self;
        let ghost k = key@;
        self.buckets[b].push(n);
        self.keys.push(key);
        proof {
            let after = *self;
            assert(after@ =~= before@.push(k));
            assert(before.home(k) == b);
            assert(before.bucket_ok(b as int));
            assert forall|c: int| 0 <= c < after.buckets@.len() implies #[trigger] after.bucket_ok(
                c,
            ) by {
                assert(before.bucket_ok(c));
                assert forall|t: int| 0 <= t < after.buckets@[c]@.len() implies #[trigger] after.buckets@[c]@[t]
                    < after.keys@.len() && after.home(
                    after.keys@[after.buckets@[c]@[t] as int]@,
                ) == c by {
                    if c == b && t == before.buckets@[c]@.len() {
                    } else {
                        assert(before.buckets@[c]@[t] == after.buckets@[c]@[t]);
                    }
                }
                assert forall|s: int, t: int|
                    0 <= s < t < after.buckets@[c]@.len() implies #[trigger] after.buckets@[c]@[s]
                    < #[trigger] after.buckets@[c]@[t] by {
                    assert(before.buckets@[c]@[s] == after.buckets@[c]@[s]);
                    if c == b && t == before.buckets@[c]@.len() {
                        assert(before.buckets@[c]@[s] < before.keys@.len());
                    } else {
                        assert(before.buckets@[c]@[t] == after.buckets@[c]@[t]);
                    }
                }
            }
            assert forall|i: int| 0 <= i < after.keys@.len() implies #[trigger] after.is_filed(
                i,
            ) by {
                let home = after.home(after.keys@[i]@);
                if i < n {
                    assert(after.keys@[i] == before.keys@[i]);
                    assert(before.is_filed(i));
                    let t = choose|t: int|
                        0 <= t < before.buckets@[home]@.len() && before.buckets@[home]@[t]
                            == i as usize;
                    assert(after.buckets@[home]@[t] == i as usize);
                } else {
                    let t = before.buckets@[b as int]@.len() as int;
                    assert(after.buckets@[home]@[t] == i as usize);
                }
            }
        }
    }

    /// The first position of a text.
    pub fn find(&self, key: &[char]) -> (r: Option<usize>)
        requires
            self.wf(),
        ensures
            match first_at(self@, key@) {
                Some(i) => r is Some && r->0 == i,
                None => r is None,
            },
    {
        let h: u64 = hash_exec(key);
        let count: usize = self.buckets.len();
        let b: usize = (h % count as u64) as usize;
        let bucket: &Vec<usize> = &self.buckets[b];
        let total: usize = self.keys.len();
        assert(self.bucket_ok(b as int));
        assert(self.home(key@) == b);
        let mut t: usize = 0;
        while t < bucket.len()
            invariant
                t <= bucket@.len(),
                self.wf(),
                b < self.buckets@.len(),
                *bucket == self.buckets@[b as int],
                self.bucket_ok(b as int),
                self.home(key@) == b,
                total == self.keys@.len(),
                forall|s: int| 0 <= s < t ==> self@[#[trigger] bucket@[s] as int] != key@,
            decreases bucket@.len() - t,
        {
            let i: usize = bucket[t];
            assert(self.buckets@[b as int]@[t as int] < self.keys@.len());
            if same_chars(self.keys[i].as_slice(), key) {
                proof {
                    assert forall|j: int| 0 <= j < i implies #[trigger] self@[j] != key@ by {
                        if self@[j] == key@ {
                            assert(self.is_filed(j));
                            let s = choose|s: int|
                                0 <= s < bucket@.len() && bucket@[s] == j as usize;
                            if s > t {
                                assert(self.buckets@[b as int]@[t as int] < self.buckets@[b as int]@[s]);
                            }
                        }
                    }
                    lemma_first_at(self@, key@, i as int);
                }
                return Some(i);
            }
            t = t + 1;
        }
        proof {
            assert forall|j: int| 0 <= j < self@.len() implies #[trigger] self@[j] != key@ by {
                if self@[j] == key@ {
                    assert(self.is_filed(j));
                    assert(self.keys@[j]@ == key@);
                    assert(bucket@.contains(j as usize));
                    let s = choose|s: int| 0 <= s < bucket@.len() && bucket@[s] == j as usize;
                    assert(self@[bucket@[s] as int] != key@);
                }
            }
            lemma_nowhere(self@, key@);
        }
        None
    }
}

} // verus!
