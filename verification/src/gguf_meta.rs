//! Typed metadata of a GGUF file: a table from names to values.
use crate::double::F64;
use crate::float::{of_int, F32};
use crate::text::chars_of;
use vstd::prelude::*;

verus! {

pub const VT_U8: u32 = 0;

pub const VT_I8: u32 = 1;

pub const VT_U16: u32 = 2;

pub const VT_I16: u32 = 3;

pub const VT_U32: u32 = 4;

pub const VT_I32: u32 = 5;

pub const VT_F32: u32 = 6;

pub const VT_BOOL: u32 = 7;

pub const VT_STRING: u32 = 8;

pub const VT_ARRAY: u32 = 9;

pub const VT_U64: u32 = 10;

pub const VT_I64: u32 = 11;

pub const VT_F64: u32 = 12;

/// A typed metadata value.
#[derive(Debug, PartialEq)]
pub enum MetaValue {
    U8(u8),
    I8(i8),
    U16(u16),
    I16(i16),
    U32(u32),
    I32(i32),
    U64(u64),
    I64(i64),
    F32(F32),
    F64(F64),
    Bool(bool),
    String(String),
    Array(Vec<MetaValue>),
}

/// What a value other than a list holds. A list inside a list, which the format
/// does not have, is `Nested`.
#[verifier::ext_equal]
pub enum Item {
    U8(u8),
    I8(i8),
    U16(u16),
    I16(i16),
    U32(u32),
    I32(i32),
    U64(u64),
    I64(i64),
    F32(F32),
    F64(F64),
    Bool(bool),
    String(Seq<char>),
    Nested,
}

/// What a value holds: one item, or a list of them.
#[verifier::ext_equal]
pub enum MetaView {
    One(Item),
    Many(Seq<Item>),
}

impl Item {
    /// The item as a count, where it is a whole number that is not negative.
    pub open spec fn count(self) -> Option<int> {
        match self {
            Item::U8(v) => Some(v as int),
            Item::I8(v) => if v >= 0 {
                Some(v as int)
            } else {
                None
            },
            Item::U16(v) => Some(v as int),
            Item::I16(v) => if v >= 0 {
                Some(v as int)
            } else {
                None
            },
            Item::U32(v) => Some(v as int),
            Item::I32(v) => if v >= 0 {
                Some(v as int)
            } else {
                None
            },
            Item::U64(v) => if v <= usize::MAX {
                Some(v as int)
            } else {
                None
            },
            Item::I64(v) => if 0 <= v <= usize::MAX {
                Some(v as int)
            } else {
                None
            },
            _ => None,
        }
    }
}

impl MetaView {
    /// The value as a count, where it is a whole number that is not negative.
    pub open spec fn count(self) -> Option<int> {
        match self {
            MetaView::One(i) => i.count(),
            MetaView::Many(_) => None,
        }
    }

    /// The value as a number, where it is one.
    pub open spec fn number(self) -> Option<F32> {
        match self {
            MetaView::One(Item::F32(v)) => Some(v),
            MetaView::One(Item::F64(v)) => Some(v.narrowed()),
            _ => match self.count() {
                Some(n) => Some(of_int(n)),
                None => None,
            },
        }
    }

    /// The value as text, where it is text.
    pub open spec fn text(self) -> Option<Seq<char>> {
        match self {
            MetaView::One(Item::String(s)) => Some(s),
            _ => None,
        }
    }
}

impl MetaValue {
    /// What the value holds, if it is not a list.
    pub open spec fn item(self) -> Item {
        match self {
            MetaValue::U8(v) => Item::U8(v),
            MetaValue::I8(v) => Item::I8(v),
            MetaValue::U16(v) => Item::U16(v),
            MetaValue::I16(v) => Item::I16(v),
            MetaValue::U32(v) => Item::U32(v),
            MetaValue::I32(v) => Item::I32(v),
            MetaValue::U64(v) => Item::U64(v),
            MetaValue::I64(v) => Item::I64(v),
            MetaValue::F32(v) => Item::F32(v),
            MetaValue::F64(v) => Item::F64(v),
            MetaValue::Bool(v) => Item::Bool(v),
            MetaValue::String(s) => Item::String(s@),
            MetaValue::Array(_) => Item::Nested,
        }
    }

    /// What the value holds.
    pub open spec fn view(self) -> MetaView {
        match self {
            MetaValue::Array(v) => MetaView::Many(items_of(v@)),
            _ => MetaView::One(self.item()),
        }
    }

    /// The value as a count: any whole number that is not negative.
    pub fn as_usize(&self) -> (r: Option<usize>)
        ensures
            match self@.count() {
                Some(n) => r is Some && r->0 == n,
                None => r is None,
            },
    {
        match self {
            MetaValue::U8(v) => Some(*v as usize),
            MetaValue::I8(v) => if *v >= 0 {
                Some(*v as usize)
            } else {
                None
            },
            MetaValue::U16(v) => Some(*v as usize),
            MetaValue::I16(v) => if *v >= 0 {
                Some(*v as usize)
            } else {
                None
            },
            MetaValue::U32(v) => Some(*v as usize),
            MetaValue::I32(v) => if *v >= 0 {
                Some(*v as usize)
            } else {
                None
            },
            MetaValue::U64(v) => if *v <= usize::MAX as u64 {
                Some(*v as usize)
            } else {
                None
            },
            MetaValue::I64(v) => if *v >= 0 && *v as u64 <= usize::MAX as u64 {
                Some(*v as usize)
            } else {
                None
            },
            _ => None,
        }
    }

    /// The value as a number: any float, or a whole number that is not negative.
    pub fn as_f32(&self) -> (r: Option<F32>)
        ensures
            r == self@.number(),
    {
        match self {
            MetaValue::F32(v) => Some(*v),
            MetaValue::F64(v) => Some(v.to_f32()),
            _ => match self.as_usize() {
                Some(n) => Some(F32::from_u64(n as u64)),
                None => None,
            },
        }
    }

    /// The text, if the value is text.
    pub fn as_str(&self) -> (r: Option<&str>)
        ensures
            match self@.text() {
                Some(s) => r is Some && r->0@ == s,
                None => r is None,
            },
    {
        match self {
            MetaValue::String(s) => Some(s.as_str()),
            _ => None,
        }
    }

    /// A copy of the value.
    pub fn duplicate(&self) -> (r: MetaValue)
        ensures
            r@ == self@,
            r.item() == self.item(),
        decreases self,
    {
        match self {
            MetaValue::Array(v) => {
                let mut out: Vec<MetaValue> = Vec::new();
                let mut i: usize = 0;
                let n: usize = v.len();
                while i < n
                    invariant
                        i <= n,
                        n == v@.len(),
                        *self == MetaValue::Array(*v),
                        out@.len() == i,
                        forall|k: int| 0 <= k < i ==> (#[trigger] out@[k]).item() == v@[k].item(),
                    decreases n - i,
                {
                    proof {
                        assert(decreases_to!(v@ => v@[i as int]));
                        assert(decreases_to!(*v => v@));
                        assert(decreases_to!(*self => self->Array_0));
                    }
                    out.push(v[i].duplicate());
                    i = i + 1;
                }
                proof {
                    assert(items_of(out@) =~= items_of(v@));
                }
                MetaValue::Array(out)
            },
            MetaValue::U8(v) => MetaValue::U8(*v),
            MetaValue::I8(v) => MetaValue::I8(*v),
            MetaValue::U16(v) => MetaValue::U16(*v),
            MetaValue::I16(v) => MetaValue::I16(*v),
            MetaValue::U32(v) => MetaValue::U32(*v),
            MetaValue::I32(v) => MetaValue::I32(*v),
            MetaValue::U64(v) => MetaValue::U64(*v),
            MetaValue::I64(v) => MetaValue::I64(*v),
            MetaValue::F32(v) => MetaValue::F32(*v),
            MetaValue::F64(v) => MetaValue::F64(*v),
            MetaValue::Bool(v) => MetaValue::Bool(*v),
            MetaValue::String(s) => MetaValue::String(s.clone()),
        }
    }
}

/// What the values of a list hold.
pub open spec fn items_of(v: Seq<MetaValue>) -> Seq<Item> {
    Seq::new(v.len(), |i: int| v[i].item())
}

// ---------------------------------------------------------------------------
// The table
// ---------------------------------------------------------------------------

/// Texts in the order of their code points.
pub open spec fn precedes(a: Seq<char>, b: Seq<char>) -> bool
    decreases a.len(),
{
    if b.len() == 0 {
        false
    } else if a.len() == 0 {
        true
    } else if a[0] != b[0] {
        (a[0] as int) < (b[0] as int)
    } else {
        precedes(a.drop_first(), b.drop_first())
    }
}

proof fn lemma_precedes_one_way(a: Seq<char>, b: Seq<char>)
    ensures
        !(precedes(a, b) && precedes(b, a)),
        precedes(a, b) || precedes(b, a) || a == b,
        !precedes(a, a),
    decreases a.len(),
{
    if a.len() > 0 {
        lemma_precedes_one_way(a.drop_first(), a.drop_first());
    }
    if a.len() > 0 && b.len() > 0 {
        if a[0] == b[0] {
            lemma_precedes_one_way(a.drop_first(), b.drop_first());
            if a.drop_first() == b.drop_first() {
                assert(a =~= seq![a[0]] + a.drop_first());
                assert(b =~= seq![b[0]] + b.drop_first());
            }
        }
    } else if a.len() == 0 && b.len() == 0 {
        assert(a =~= b);
    }
}

proof fn lemma_precedes_transitive(a: Seq<char>, b: Seq<char>, c: Seq<char>)
    requires
        precedes(a, b),
        precedes(b, c),
    ensures
        precedes(a, c),
    decreases a.len(),
{
    if a.len() > 0 && a[0] == b[0] && b[0] == c[0] {
        lemma_precedes_transitive(a.drop_first(), b.drop_first(), c.drop_first());
    }
}

/// Compares two texts by their code points.
pub(crate) fn text_precedes(a: &str, b: &str) -> (r: bool)
    ensures
        r == precedes(a@, b@),
{
    let x: Vec<char> = chars_of(a);
    let y: Vec<char> = chars_of(b);
    let mut i: usize = 0;
    let n: usize = x.len();
    let m: usize = y.len();
    assert(x@.skip(0) =~= x@);
    assert(y@.skip(0) =~= y@);
    loop
        invariant
            i <= n,
            i <= m,
            n == x@.len(),
            m == y@.len(),
            x@ == a@,
            y@ == b@,
            precedes(a@, b@) == precedes(x@.skip(i as int), y@.skip(i as int)),
        decreases n - i,
    {
        if i == m {
            return false;
        }
        if i == n {
            return true;
        }
        assert(x@.skip(i as int)[0] == x@[i as int]);
        assert(y@.skip(i as int)[0] == y@[i as int]);
        if x[i] != y[i] {
            return x[i] < y[i];
        }
        proof {
            assert(x@.skip(i as int).drop_first() =~= x@.skip(i + 1));
            assert(y@.skip(i as int).drop_first() =~= y@.skip(i + 1));
        }
        i = i + 1;
    }
}

/// What the entries of a table hold.
pub open spec fn pairs_of(v: Seq<(String, MetaValue)>) -> Seq<(Seq<char>, MetaView)> {
    Seq::new(v.len(), |i: int| (v[i].0@, v[i].1@))
}

/// The map that pairs make when they are entered one after the other.
pub open spec fn map_of(pairs: Seq<(Seq<char>, MetaView)>) -> Map<Seq<char>, MetaView>
    decreases pairs.len(),
{
    if pairs.len() == 0 {
        Map::empty()
    } else {
        map_of(pairs.drop_last()).insert(pairs.last().0, pairs.last().1)
    }
}

/// The keys stand in increasing order.
pub open spec fn ordered(pairs: Seq<(Seq<char>, MetaView)>) -> bool {
    forall|i: int, j: int|
        0 <= i < j < pairs.len() ==> precedes((#[trigger] pairs[i]).0, (#[trigger] pairs[j]).0)
}

/// Of pairs in order, each is in the map, and the map holds nothing else.
pub proof fn lemma_map_of_ordered(pairs: Seq<(Seq<char>, MetaView)>)
    requires
        ordered(pairs),
    ensures
        forall|i: int|
            0 <= i < pairs.len() ==> map_of(pairs).dom().contains((#[trigger] pairs[i]).0)
                && map_of(pairs)[pairs[i].0] == pairs[i].1,
        forall|k: Seq<char>| #[trigger]
            map_of(pairs).dom().contains(k) ==> exists|i: int|
                0 <= i < pairs.len() && (#[trigger] pairs[i]).0 == k,
    decreases pairs.len(),
{
    if pairs.len() > 0 {
        let init = pairs.drop_last();
        assert forall|i: int, j: int| 0 <= i < j < init.len() implies precedes(
            (#[trigger] init[i]).0,
            (#[trigger] init[j]).0,
        ) by {
            assert(init[i] == pairs[i] && init[j] == pairs[j]);
        }
        lemma_map_of_ordered(init);
        let last = pairs.len() - 1;
        assert forall|i: int| 0 <= i < pairs.len() implies map_of(pairs).dom().contains(
            (#[trigger] pairs[i]).0,
        ) && map_of(pairs)[pairs[i].0] == pairs[i].1 by {
            if i < last {
                lemma_precedes_one_way(pairs[i].0, pairs[last].0);
                assert(precedes(pairs[i].0, pairs[last].0));
                assert(init[i] == pairs[i]);
            }
        }
        assert forall|k: Seq<char>| #[trigger] map_of(pairs).dom().contains(k) implies exists|i: int|
            0 <= i < pairs.len() && (#[trigger] pairs[i]).0 == k by {
            if k == pairs[last].0 {
                assert(pairs[last].0 == k);
            } else {
                assert(map_of(init).dom().contains(k));
                let i = choose|i: int| 0 <= i < init.len() && (#[trigger] init[i]).0 == k;
                assert(init[i] == pairs[i]);
            }
        }
    }
}

/// A metadata table, in the order of its keys.
pub struct MetaTable {
    pub entries: Vec<(String, MetaValue)>,
}

impl MetaTable {
    /// The keys stand in increasing order.
    pub open spec fn wf(self) -> bool {
        ordered(pairs_of(self.entries@))
    }

    /// The map from key to value.
    pub open spec fn view(self) -> Map<Seq<char>, MetaView> {
        map_of(pairs_of(self.entries@))
    }

    /// A table without entries.
    pub fn new() -> (t: MetaTable)
        ensures
            t.wf(),
            t.entries@.len() == 0,
            t@ == Map::<Seq<char>, MetaView>::empty(),
    {
        MetaTable { entries: Vec::new() }
    }

    /// The first position whose key does not stand before `key`.
    fn place(&self, key: &str) -> (p: usize)
        ensures
            p <= self.entries@.len(),
            forall|i: int| 0 <= i < p ==> precedes((#[trigger] self.entries@[i]).0@, key@),
            p < self.entries@.len() ==> !precedes(self.entries@[p as int].0@, key@),
    {
        let mut p: usize = 0;
        while p < self.entries.len()
            invariant
                p <= self.entries@.len(),
                forall|i: int| 0 <= i < p ==> precedes((#[trigger] self.entries@[i]).0@, key@),
            decreases self.entries@.len() - p,
        {
            if !text_precedes(self.entries[p].0.as_str(), key) {
                return p;
            }
            p = p + 1;
        }
        p
    }

    /// The value of a key.
    pub fn get(&self, key: &str) -> (r: Option<&MetaValue>)
        requires
            self.wf(),
        ensures
            r is Some <==> self@.dom().contains(key@),
            r is Some ==> r->0@ == self@[key@],
    {
        let p: usize = self.place(key);
        let ghost pairs = pairs_of(self.entries@);
        proof {
            lemma_map_of_ordered(pairs);
            if p < pairs.len() {
                lemma_precedes_one_way(pairs[p as int].0, key@);
            }
            if self@.dom().contains(key@) {
                let i = choose|i: int| 0 <= i < pairs.len() && (#[trigger] pairs[i]).0 == key@;
                lemma_precedes_one_way(key@, key@);
                assert(self.entries@[i].0@ == pairs[i].0);
                assert(i >= p);
                if i > p {
                    assert(precedes(pairs[p as int].0, pairs[i].0));
                }
                assert(i == p);
            }
        }
        if p < self.entries.len() {
            if text_precedes(key, self.entries[p].0.as_str()) {
                proof {
                    lemma_precedes_one_way(key@, pairs[p as int].0);
                }
                return None;
            }
            proof {
                assert(pairs[p as int].0 == key@);
            }
            return Some(&self.entries[p].1);
        }
        None
    }

    /// Enters a value under a key, in place of an earlier one.
    pub fn insert(&mut self, key: String, value: MetaValue)
        requires
            old(self).wf(),
        ensures
            final(self).wf(),
            final(self)@ == old(self)@.insert(key@, value@),
    {
        let p: usize = self.place(key.as_str());
        let ghost before = pairs_of(self.entries@);
        let ghost k = key@;
        let ghost v = value@;
        let total: usize = self.entries.len();
        proof {
            lemma_map_of_ordered(before);
            if p < total {
                lemma_precedes_one_way(before[p as int].0, k);
            }
        }
        if p < total && !text_precedes(key.as_str(), self.entries[p].0.as_str()) {
            let ghost es = self.entries@;
            self.entries[p] = (key, value);
            proof {
                let after = pairs_of(self.entries@);
                assert(after =~= before.update(p as int, (k, v)));
                assert(before[p as int].0 == k);
                assert forall|i: int, j: int| 0 <= i < j < after.len() implies precedes(
                    (#[trigger] after[i]).0,
                    (#[trigger] after[j]).0,
                ) by {
                    assert(after[i].0 == before[i].0 && after[j].0 == before[j].0);
                    assert(precedes(before[i].0, before[j].0));
                }
                lemma_map_of_ordered(after);
                assert(map_of(after) =~= map_of(before).insert(k, v)) by {
                    assert forall|x: Seq<char>|
                        map_of(after).dom().contains(x) <==> #[trigger] map_of(before).insert(
                            k,
                            v,
                        ).dom().contains(x) by {
                        if map_of(after).dom().contains(x) {
                            let i = choose|i: int|
                                0 <= i < after.len() && (#[trigger] after[i]).0 == x;
                            assert(before[i].0 == after[i].0);
                        }
                        if x == k {
                            assert(after[p as int].0 == x);
                        } else if map_of(before).dom().contains(x) {
                            let i = choose|i: int|
                                0 <= i < before.len() && (#[trigger] before[i]).0 == x;
                            assert(after[i].0 == x);
                        }
                    }
                    assert forall|x: Seq<char>| map_of(after).dom().contains(x) implies #[trigger] map_of(
                        after,
                    )[x] == map_of(before).insert(k, v)[x] by {
                        let i = choose|i: int| 0 <= i < after.len() && (#[trigger] after[i]).0 == x;
                        assert(before[i].0 == x);
                        if i != p {
                            if x == k {
                                lemma_precedes_one_way(k, k);
                                if i < p {
                                    assert(precedes(before[i].0, before[p as int].0));
                                } else {
                                    assert(precedes(before[p as int].0, before[i].0));
                                }
                            }
                        }
                    }
                }
            }
            return;
        }
        self.entries.insert(p, (key, value));
        proof {
            let after = pairs_of(self.entries@);
            assert(after =~= before.insert(p as int, (k, v)));
            assert forall|i: int, j: int| 0 <= i < j < after.len() implies precedes(
                (#[trigger] after[i]).0,
                (#[trigger] after[j]).0,
            ) by {
                let bi = if i < p { i } else { i - 1 };
                let bj = if j < p { j } else { j - 1 };
                if i == p {
                    // Everything from `p` on stands after the new key.
                    assert(precedes(k, before[p as int].0));
                    if bj > p {
                        assert(precedes(before[p as int].0, before[bj].0));
                        lemma_precedes_transitive(k, before[p as int].0, before[bj].0);
                    }
                } else if j == p {
                    assert(before[i].0 == old(self).entries@[i].0@);
                } else {
                    assert(precedes(before[bi].0, before[bj].0));
                }
            }
            lemma_map_of_ordered(after);
            assert(map_of(after) =~= map_of(before).insert(k, v)) by {
                assert forall|x: Seq<char>|
                    map_of(after).dom().contains(x) <==> #[trigger] map_of(before).insert(
                        k,
                        v,
                    ).dom().contains(x) by {
                    if map_of(after).dom().contains(x) {
                        let i = choose|i: int| 0 <= i < after.len() && (#[trigger] after[i]).0 == x;
                        if i != p {
                            let bi = if i < p { i } else { i - 1 };
                            assert(before[bi].0 == x);
                        }
                    }
                    if x == k {
                        assert(after[p as int].0 == x);
                    } else if map_of(before).dom().contains(x) {
                        let i = choose|i: int|
                            0 <= i < before.len() && (#[trigger] before[i]).0 == x;
                        let ai = if i < p { i } else { i + 1 };
                        assert(after[ai].0 == x);
                    }
                }
                assert forall|x: Seq<char>| map_of(after).dom().contains(x) implies #[trigger] map_of(
                    after,
                )[x] == map_of(before).insert(k, v)[x] by {
                    let i = choose|i: int| 0 <= i < after.len() && (#[trigger] after[i]).0 == x;
                    if i != p {
                        let bi = if i < p { i } else { i - 1 };
                        assert(before[bi] == after[i]);
                        if x == k {
                            lemma_precedes_one_way(k, k);
                            if i < p {
                                assert(precedes(after[i].0, after[p as int].0));
                            } else {
                                assert(precedes(after[p as int].0, after[i].0));
                            }
                        }
                    } else {
                        assert(after[p as int] == (k, v));
                    }
                }
            }
        }
    }
}

} // verus!
