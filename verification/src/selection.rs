//! What a selection resolves to: ordinals, each with the file name of its
//! playbook and the environment overrides given for it.

use crate::text::str_eq;
use vstd::prelude::*;

verus! {

/// Keys with their values, in the order in which the keys first came.
pub type Pairs = Seq<(Seq<char>, Seq<char>)>;

/// The position of the first pair of `pairs` under `key`, or the length of
/// `pairs` if there is none.
pub open spec fn key_position(pairs: Pairs, key: Seq<char>) -> int
    decreases pairs.len(),
{
    if pairs.len() == 0 {
        0
    } else if pairs[0].0 == key {
        0
    } else {
        1 + key_position(pairs.drop_first(), key)
    }
}

/// `pairs` with `value` under `key`: in place of the value that `key` had, or
/// at the end if it had none.
pub open spec fn upsert(pairs: Pairs, key: Seq<char>, value: Seq<char>) -> Pairs {
    let p = key_position(pairs, key);
    if p < pairs.len() {
        pairs.update(p, (key, value))
    } else {
        pairs.push((key, value))
    }
}

/// Whether no key stands twice in `pairs`.
pub open spec fn distinct_keys(pairs: Pairs) -> bool {
    forall|i: int, j: int|
        0 <= i < j < pairs.len() ==> (#[trigger] pairs[i]).0 != (#[trigger] pairs[j]).0
}

/// The value under `key`, if `pairs` has the key.
pub open spec fn value_of(pairs: Pairs, key: Seq<char>) -> Option<Seq<char>> {
    let p = key_position(pairs, key);
    if p < pairs.len() {
        Some(pairs[p].1)
    } else {
        None
    }
}

/// `key_position` finds the first pair under the key: the key stands there
/// and nowhere before.
pub proof fn lemma_key_position(pairs: Pairs, key: Seq<char>)
    ensures
        0 <= key_position(pairs, key) <= pairs.len(),
        key_position(pairs, key) < pairs.len() ==> pairs[key_position(pairs, key)].0 == key,
        forall|k: int| 0 <= k < key_position(pairs, key) ==> (#[trigger] pairs[k]).0 != key,
    decreases pairs.len(),
{
    if pairs.len() > 0 && pairs[0].0 != key {
        let rest = pairs.drop_first();
        lemma_key_position(rest, key);
        assert forall|k: int| 0 <= k < key_position(pairs, key) implies (#[trigger] pairs[k]).0
            != key by {
            if k > 0 {
                assert(pairs[k] == rest[k - 1]);
            }
        }
    }
}

/// A key has one place: where it stands, there `key_position` finds it, if
/// no key stands twice.
proof fn lemma_key_position_is(pairs: Pairs, key: Seq<char>, p: int)
    requires
        0 <= p <= pairs.len(),
        p < pairs.len() ==> pairs[p].0 == key,
        forall|k: int| 0 <= k < p ==> (#[trigger] pairs[k]).0 != key,
    ensures
        key_position(pairs, key) == p,
{
    lemma_key_position(pairs, key);
    let q = key_position(pairs, key);
    if q < p {
        assert(pairs[q].0 != key);
    }
}

/// Setting a key keeps the keys distinct, gives the key its new value and
/// leaves every other key with the value it had: the last value set for a
/// key is the one that stays.
pub proof fn lemma_upsert(pairs: Pairs, key: Seq<char>, value: Seq<char>, other: Seq<char>)
    requires
        distinct_keys(pairs),
    ensures
        distinct_keys(upsert(pairs, key, value)),
        value_of(upsert(pairs, key, value), key) == Some(value),
        other != key ==> value_of(upsert(pairs, key, value), other) == value_of(pairs, other),
{
    lemma_key_position(pairs, key);
    lemma_key_position(pairs, other);
    let p = key_position(pairs, key);
    let after = upsert(pairs, key, value);
    assert forall|k: int| 0 <= k < p implies (#[trigger] after[k]).0 != key by {
        assert(after[k] == pairs[k]);
    }
    lemma_key_position_is(after, key, p);
    if other != key {
        let q = key_position(pairs, other);
        assert forall|k: int| 0 <= k < q implies (#[trigger] after[k]).0 != other by {
            if k != p {
                assert(after[k] == pairs[k]);
            }
        }
        if q < pairs.len() {
            assert(after[q] == pairs[q]);
            lemma_key_position_is(after, other, q);
        } else {
            lemma_key_position_is(after, other, after.len() as int);
        }
    }
    assert forall|i: int, j: int| 0 <= i < j < after.len() implies (#[trigger] after[i]).0 != (
    #[trigger] after[j]).0 by {
        if j < pairs.len() {
            assert(after[i].0 == pairs[i].0 && after[j].0 == pairs[j].0);
        } else {
            assert(after[i] == pairs[i]);
        }
    }
}

/// Environment overrides for one playbook: keys with their values, no key
/// twice.
#[derive(Debug, Clone, PartialEq, Eq)]
pub struct EnvOverride {
    pairs: Vec<(String, String)>,
}

impl View for EnvOverride {
    type V = Pairs;

    /// The keys with their values, in the order in which the keys first came.
    closed spec fn view(&self) -> Pairs {
        self.pairs@.map_values(|p: (String, String)| (p.0@, p.1@))
    }
}

impl EnvOverride {
    /// No key stands twice.
    pub open spec fn wf(&self) -> bool {
        distinct_keys(self@)
    }

    /// No overrides.
    pub fn new() -> (r: EnvOverride)
        ensures
            r@ == Pairs::empty(),
            r.wf(),
    {
        let r = EnvOverride { pairs: Vec::new() };
        assert(r@ =~= Pairs::empty());
        r
    }

    /// The number of keys.
    pub fn len(&self) -> (r: usize)
        ensures
            r == self@.len(),
    {
        self.pairs.len()
    }

    /// The key at position `i`.
    pub fn key_at(&self, i: usize) -> (r: &String)
        requires
            i < self@.len(),
        ensures
            r@ == self@[i as int].0,
    {
        &self.pairs[i].0
    }

    /// The value at position `i`.
    pub fn value_at(&self, i: usize) -> (r: &String)
        requires
            i < self@.len(),
        ensures
            r@ == self@[i as int].1,
    {
        &self.pairs[i].1
    }

    /// The value under `key`, if there is one.
    pub fn get(&self, key: &str) -> (r: Option<&String>)
        ensures
            match r {
                Some(v) => value_of(self@, key@) == Some(v@),
                None => value_of(self@, key@) is None,
            },
    {
        let p = self.position(key);
        if p < self.pairs.len() {
            Some(&self.pairs[p].1)
        } else {
            None
        }
    }

    /// The position of the first pair under `key`, or the number of pairs.
    fn position(&self, key: &str) -> (r: usize)
        ensures
            r == key_position(self@, key@),
            r <= self@.len(),
    {
        let mut i: usize = 0;
        assert(self@.skip(0) =~= self@);
        while i < self.pairs.len()
            invariant
                i <= self.pairs.len(),
                key_position(self@, key@) == i + key_position(self@.skip(i as int), key@),
            decreases self.pairs.len() - i,
        {
            assert(self@.skip(i as int).drop_first() =~= self@.skip(i + 1));
            assert(self@.skip(i as int)[0].0 == self.pairs@[i as int].0@);
            if str_eq(self.pairs[i].0.as_str(), key) {
                return i;
            }
            i += 1;
        }
        i
    }

    /// Sets `key` to `value`. The value that `key` had, if any, is replaced.
    pub fn insert(&mut self, key: String, value: String)
        ensures
            final(self)@ == upsert(old(self)@, key@, value@),
            old(self).wf() ==> final(self).wf(),
    {
        let p = self.position(key.as_str());
        proof {
            if old(self).wf() {
                lemma_upsert(old(self)@, key@, value@, key@);
            }
        }
        if p < self.pairs.len() {
            self.pairs.set(p, (key, value));
            assert(self@ =~= upsert(old(self)@, key@, value@));
        } else {
            self.pairs.push((key, value));
            assert(self@ =~= upsert(old(self)@, key@, value@));
        }
    }

    /// A copy of these overrides.
    pub fn copy(&self) -> (r: EnvOverride)
        ensures
            r@ == self@,
    {
        let mut pairs: Vec<(String, String)> = Vec::new();
        let mut i: usize = 0;
        while i < self.pairs.len()
            invariant
                i <= self.pairs.len(),
                pairs@.len() == i,
                forall|k: int| 0 <= k < i ==> pairs@[k] == self.pairs@[k],
            decreases self.pairs.len() - i,
        {
            pairs.push((self.pairs[i].0.clone(), self.pairs[i].1.clone()));
            i += 1;
        }
        let r = EnvOverride { pairs };
        assert(r@ =~= self@);
        r
    }
}

/// One selected playbook.
#[derive(Debug, Clone, PartialEq, Eq)]
pub struct Selected {
    pub ordinal: u64,
    pub name: String,
    pub envs: EnvOverride,
}

/// One selected playbook, over sequences of characters.
pub struct SelectedView {
    pub ordinal: u64,
    pub name: Seq<char>,
    pub envs: Pairs,
}

impl View for Selected {
    type V = SelectedView;

    open spec fn view(&self) -> SelectedView {
        SelectedView { ordinal: self.ordinal, name: self.name@, envs: self.envs@ }
    }
}

/// Whether the ordinals of `s` go strictly up.
pub open spec fn ascending(s: Seq<SelectedView>) -> bool {
    forall|i: int, j: int|
        0 <= i < j < s.len() ==> (#[trigger] s[i]).ordinal < (#[trigger] s[j]).ordinal
}

/// The number of entries that `s` begins with whose ordinal is below `k`:
/// in an ascending `s`, the place of `k`.
pub open spec fn slot(s: Seq<SelectedView>, k: u64) -> int
    decreases s.len(),
{
    if s.len() == 0 || s[0].ordinal >= k {
        0
    } else {
        1 + slot(s.drop_first(), k)
    }
}

/// The entry of `s` under the ordinal `k`, if there is one.
pub open spec fn lookup(s: Seq<SelectedView>, k: u64) -> Option<SelectedView> {
    let p = slot(s, k);
    if p < s.len() && s[p].ordinal == k {
        Some(s[p])
    } else {
        None
    }
}

/// `s` with `x` under its ordinal: in place of the entry that the ordinal
/// had, or as a new entry where the order puts it.
pub open spec fn placed(s: Seq<SelectedView>, x: SelectedView) -> Seq<SelectedView> {
    let p = slot(s, x.ordinal);
    if p < s.len() && s[p].ordinal == x.ordinal {
        s.update(p, x)
    } else {
        s.insert(p, x)
    }
}

/// The mapping that `s` stands for: from each ordinal to the file name and
/// the overrides of its entry.
pub open spec fn mapping_of(s: Seq<SelectedView>) -> Map<u64, (Seq<char>, Pairs)> {
    Map::new(
        |k: u64| lookup(s, k) is Some,
        |k: u64| (lookup(s, k)->Some_0.name, lookup(s, k)->Some_0.envs),
    )
}

/// Before its place every ordinal is below `k`, and at its place none is.
pub proof fn lemma_slot(s: Seq<SelectedView>, k: u64)
    ensures
        0 <= slot(s, k) <= s.len(),
        forall|i: int| 0 <= i < slot(s, k) ==> (#[trigger] s[i]).ordinal < k,
        slot(s, k) < s.len() ==> s[slot(s, k)].ordinal >= k,
    decreases s.len(),
{
    if s.len() > 0 && s[0].ordinal < k {
        let rest = s.drop_first();
        lemma_slot(rest, k);
        assert forall|i: int| 0 <= i < slot(s, k) implies (#[trigger] s[i]).ordinal < k by {
            if i > 0 {
                assert(s[i] == rest[i - 1]);
            }
        }
    }
}

/// In an ascending sequence the place of an ordinal is where the ordinals
/// below it end.
proof fn lemma_slot_is(s: Seq<SelectedView>, k: u64, p: int)
    requires
        0 <= p <= s.len(),
        forall|i: int| 0 <= i < p ==> (#[trigger] s[i]).ordinal < k,
        p < s.len() ==> s[p].ordinal >= k,
    ensures
        slot(s, k) == p,
{
    lemma_slot(s, k);
    let q = slot(s, k);
    if q < p {
        assert(s[q].ordinal < k);
    }
}

/// An ascending sequence holds an entry under an ordinal exactly if `lookup`
/// finds it.
pub proof fn lemma_lookup(s: Seq<SelectedView>, i: int)
    requires
        ascending(s),
        0 <= i < s.len(),
    ensures
        lookup(s, s[i].ordinal) == Some(s[i]),
{
    let k = s[i].ordinal;
    assert forall|j: int| 0 <= j < i implies (#[trigger] s[j]).ordinal < k by {}
    lemma_slot_is(s, k, i);
}

/// Placing an entry keeps the ordinals ascending, puts the entry under its
/// ordinal, whatever stood there before, and leaves every other ordinal as
/// it was.
pub proof fn lemma_placed(s: Seq<SelectedView>, x: SelectedView)
    requires
        ascending(s),
    ensures
        ascending(placed(s, x)),
        mapping_of(placed(s, x)) == mapping_of(s).insert(x.ordinal, (x.name, x.envs)),
{
    let k = x.ordinal;
    let p = slot(s, k);
    let after = placed(s, x);
    lemma_slot(s, k);
    let replaced = p < s.len() && s[p].ordinal == k;
    assert forall|i: int, j: int| 0 <= i < j < after.len() implies (#[trigger] after[i]).ordinal
        < (#[trigger] after[j]).ordinal by {
        if replaced {
            assert(after[i].ordinal == s[i].ordinal && after[j].ordinal == s[j].ordinal);
        } else {
            if j < p {
                assert(after[i] == s[i] && after[j] == s[j]);
            } else if j == p {
                assert(after[i] == s[i]);
            } else if i < p {
                assert(after[i] == s[i] && after[j] == s[j - 1]);
            } else if i == p {
                assert(after[j] == s[j - 1]);
                assert(s[p].ordinal >= k);
                if j - 1 > p {
                    assert(s[p].ordinal < s[j - 1].ordinal);
                }
            } else {
                assert(after[i] == s[i - 1] && after[j] == s[j - 1]);
            }
        }
    }
    assert(after[p] == x);
    lemma_lookup(after, p);
    assert forall|m: u64| m != k implies lookup(after, m) == lookup(s, m) by {
        lemma_slot(s, m);
        let q = slot(s, m);
        if replaced {
            assert forall|i: int| 0 <= i < q implies (#[trigger] after[i]).ordinal < m by {
                assert(after[i].ordinal == s[i].ordinal);
            }
            if q < s.len() {
                assert(after[q].ordinal == s[q].ordinal);
            }
            lemma_slot_is(after, m, q);
            if q < s.len() && q != p {
                assert(after[q] == s[q]);
            }
        } else if m < k {
            assert(q <= p) by {
                if q > p {
                    assert(s[p].ordinal < m);
                }
            }
            assert forall|i: int| 0 <= i < q implies (#[trigger] after[i]).ordinal < m by {
                assert(after[i] == s[i]);
            }
            if q < p {
                assert(after[q] == s[q]);
            }
            lemma_slot_is(after, m, q);
        } else {
            assert(q >= p) by {
                if q < p {
                    assert(s[q].ordinal < k);
                }
            }
            assert forall|i: int| 0 <= i < q + 1 implies (#[trigger] after[i]).ordinal < m by {
                if i < p {
                    assert(after[i] == s[i]);
                } else if i > p {
                    assert(after[i] == s[i - 1]);
                }
            }
            if q < s.len() {
                assert(after[q + 1] == s[q]);
            }
            lemma_slot_is(after, m, q + 1);
        }
    }
    assert(mapping_of(after) =~= mapping_of(s).insert(k, (x.name, x.envs)));
}

/// A resolved selection: playbooks by ordinal, each ordinal once, in
/// ascending order.
#[derive(Debug, Clone, PartialEq, Eq)]
pub struct Selection {
    entries: Vec<Selected>,
}

impl View for Selection {
    type V = Seq<SelectedView>;

    /// The entries, in ascending order of their ordinals.
    closed spec fn view(&self) -> Seq<SelectedView> {
        self.entries@.map_values(|e: Selected| e@)
    }
}

impl Selection {
    /// The ordinals go strictly up.
    pub open spec fn wf(&self) -> bool {
        ascending(self@)
    }

    /// The selection as a mapping from ordinal to file name and overrides.
    pub open spec fn mapping(&self) -> Map<u64, (Seq<char>, Pairs)> {
        mapping_of(self@)
    }

    /// The empty selection.
    pub fn new() -> (r: Selection)
        ensures
            r@ == Seq::<SelectedView>::empty(),
            r.wf(),
    {
        let r = Selection { entries: Vec::new() };
        assert(r@ =~= Seq::<SelectedView>::empty());
        r
    }

    /// The number of selected playbooks.
    pub fn len(&self) -> (r: usize)
        ensures
            r == self@.len(),
    {
        self.entries.len()
    }

    /// The entry at position `i`, counted in ascending order of ordinals.
    pub fn get(&self, i: usize) -> (r: &Selected)
        requires
            i < self@.len(),
        ensures
            r@ == self@[i as int],
    {
        &self.entries[i]
    }

    /// A copy of this selection.
    pub fn copy(&self) -> (r: Selection)
        ensures
            r@ == self@,
    {
        let mut entries: Vec<Selected> = Vec::new();
        let mut i: usize = 0;
        while i < self.entries.len()
            invariant
                i <= self.entries.len(),
                entries@.len() == i,
                forall|k: int| 0 <= k < i ==> (#[trigger] entries@[k])@ == self.entries@[k]@,
            decreases self.entries.len() - i,
        {
            let e = &self.entries[i];
            entries.push(Selected { ordinal: e.ordinal, name: e.name.clone(), envs: e.envs.copy() });
            i += 1;
        }
        let r = Selection { entries };
        assert(r@ =~= self@);
        r
    }

    /// Puts every entry of `other` under its ordinal: where both selections
    /// have an ordinal, the entry of `other` stays.
    pub fn absorb(&mut self, other: &Selection)
        requires
            old(self).wf(),
            other.wf(),
        ensures
            final(self).wf(),
            final(self).mapping() == old(self).mapping().union_prefer_right(other.mapping()),
    {
        let mut j: usize = 0;
        proof {
            assert(other@.take(0) =~= Seq::<SelectedView>::empty());
            assert(self.mapping() =~= old(self).mapping().union_prefer_right(
                mapping_of(other@.take(0)),
            ));
        }
        while j < other.entries.len()
            invariant
                j <= other@.len(),
                other@.len() == other.entries.len(),
                other.wf(),
                self.wf(),
                self.mapping() == old(self).mapping().union_prefer_right(
                    mapping_of(other@.take(j as int)),
                ),
            decreases other@.len() - j,
        {
            let entry = &other.entries[j];
            assert(entry@ == other@[j as int]);
            self.insert(
                Selected { ordinal: entry.ordinal, name: entry.name.clone(), envs: entry.envs.copy() },
            );
            proof {
                lemma_mapping_take(other@, j as int);
                assert(self.mapping() =~= old(self).mapping().union_prefer_right(
                    mapping_of(other@.take(j + 1)),
                ));
            }
            j += 1;
        }
        proof {
            assert(other@.take(other@.len() as int) =~= other@);
        }
    }

    /// Puts `item` under its ordinal. An entry that the ordinal had is
    /// replaced: the last one put stays.
    pub fn insert(&mut self, item: Selected)
        ensures
            final(self)@ == placed(old(self)@, item@),
            old(self).wf() ==> final(self).wf(),
            old(self).wf() ==> final(self).mapping() == old(self).mapping().insert(
                item.ordinal,
                (item.name@, item.envs@),
            ),
    {
        let k = item.ordinal;
        let mut p: usize = 0;
        assert(self@.skip(0) =~= self@);
        while p < self.entries.len() && self.entries[p].ordinal < k
            invariant
                p <= self.entries.len(),
                slot(self@, k) == p + slot(self@.skip(p as int), k),
                *self == *old(self),
            decreases self.entries.len() - p,
        {
            assert(self@.skip(p as int).drop_first() =~= self@.skip(p + 1));
            assert(self@.skip(p as int)[0] == self.entries@[p as int]@);
            p += 1;
        }
        proof {
            if p < self.entries.len() {
                assert(self@.skip(p as int)[0] == self.entries@[p as int]@);
            }
            assert(slot(self@, k) == p);
            if old(self).wf() {
                lemma_placed(old(self)@, item@);
            }
        }
        if p < self.entries.len() && self.entries[p].ordinal == k {
            self.entries.set(p, item);
            assert(self@ =~= placed(old(self)@, item@));
        } else {
            self.entries.insert(p, item);
            assert(self@ =~= placed(old(self)@, item@));
        }
    }
}

/// An entry whose ordinal is above all others is placed at the end.
pub proof fn lemma_placed_last(s: Seq<SelectedView>, x: SelectedView)
    requires
        forall|i: int| 0 <= i < s.len() ==> (#[trigger] s[i]).ordinal < x.ordinal,
    ensures
        placed(s, x) == s.push(x),
{
    lemma_slot_is(s, x.ordinal, s.len() as int);
    assert(s.insert(s.len() as int, x) =~= s.push(x));
}

/// The mapping of an ascending sequence grows entry by entry: that of its
/// first `j + 1` entries is that of its first `j` with the next entry put in.
pub proof fn lemma_mapping_take(s: Seq<SelectedView>, j: int)
    requires
        ascending(s),
        0 <= j < s.len(),
    ensures
        mapping_of(s.take(j + 1)) == mapping_of(s.take(j)).insert(
            s[j].ordinal,
            (s[j].name, s[j].envs),
        ),
{
    let head = s.take(j);
    assert forall|a: int, b: int| 0 <= a < b < head.len() implies (#[trigger] head[a]).ordinal < (
    #[trigger] head[b]).ordinal by {
        assert(head[a] == s[a] && head[b] == s[b]);
    }
    assert forall|i: int| 0 <= i < j implies (#[trigger] head[i]).ordinal < s[j].ordinal by {
        assert(head[i] == s[i]);
    }
    lemma_slot_is(head, s[j].ordinal, j);
    assert(placed(head, s[j]) =~= s.take(j + 1));
    lemma_placed(head, s[j]);
}

} // verus!
