//! The playbook index: the playbook files of a directory, each under the
//! ordinal that its place in the sorted order of file names gives it.

use crate::text::{ends_with, has_suffix, lemma_name_le_total_ordering, name_le, str_eq, str_le, texts};
use vstd::prelude::*;
use vstd::relations::{sorted_by, total_ordering};
use vstd::seq_lib::lemma_sorted_unique;

verus! {

/// Whether a file of this name is a playbook: the name ends in `.yaml`.
pub open spec fn is_playbook_name(name: Seq<char>) -> bool {
    has_suffix(name, ".yaml"@)
}

/// The test that picks the playbooks out of a listing.
pub open spec fn playbook_filter() -> spec_fn(Seq<char>) -> bool {
    |name: Seq<char>| is_playbook_name(name)
}

/// The order in which the index holds the names.
pub open spec fn name_order() -> spec_fn(Seq<char>, Seq<char>) -> bool {
    |a: Seq<char>, b: Seq<char>| name_le(a, b)
}

/// The index of a listing: its playbook names, sorted. The ordinal of a name
/// is its position.
pub open spec fn index_of(names: Seq<Seq<char>>) -> Seq<Seq<char>> {
    names.filter(playbook_filter()).sort_by(name_order())
}

/// The position of the first `name` in `names`, or the length of `names` if
/// there is none.
pub open spec fn position_of(names: Seq<Seq<char>>, name: Seq<char>) -> int
    decreases names.len(),
{
    if names.len() == 0 {
        0
    } else if names[0] == name {
        0
    } else {
        1 + position_of(names.drop_first(), name)
    }
}

/// `position_of` finds the first occurrence: the name stands there and
/// nowhere before, and the index holds the name exactly if the result is
/// below the length.
pub proof fn lemma_position_of(names: Seq<Seq<char>>, name: Seq<char>)
    ensures
        0 <= position_of(names, name) <= names.len(),
        position_of(names, name) < names.len() ==> names[position_of(names, name)] == name,
        forall|k: int| 0 <= k < position_of(names, name) ==> names[k] != name,
        position_of(names, name) < names.len() <==> names.contains(name),
    decreases names.len(),
{
    if names.len() > 0 && names[0] != name {
        let rest = names.drop_first();
        lemma_position_of(rest, name);
        assert forall|k: int| 0 <= k < position_of(names, name) implies names[k] != name by {
            if k > 0 {
                assert(names[k] == rest[k - 1]);
            }
        }
        if position_of(names, name) < names.len() {
            assert(names[position_of(names, name)] == rest[position_of(rest, name)]);
        }
        if names.contains(name) {
            let j = choose|j: int| 0 <= j < names.len() && names[j] == name;
            assert(rest[j - 1] == name);
        }
    }
}

/// The playbooks of a directory, by ordinal.
#[derive(Debug, Clone, PartialEq, Eq)]
pub struct PlaybookIndex {
    names: Vec<String>,
}

impl View for PlaybookIndex {
    type V = Seq<Seq<char>>;

    /// The file names; the ordinal of each is its position.
    closed spec fn view(&self) -> Seq<Seq<char>> {
        texts(self.names@)
    }
}

impl PlaybookIndex {
    /// Builds the index of a listing: keeps the names that end in `.yaml` and
    /// sorts them byte by byte.
    pub fn build(listing: &Vec<String>) -> (r: PlaybookIndex)
        ensures
            r@ == index_of(texts(listing@)),
    {
        let mut names: Vec<String> = Vec::new();
        let mut i: usize = 0;
        proof {
            lemma_name_le_total_ordering();
            assert(texts(listing@).take(0) =~= Seq::<Seq<char>>::empty());
            assert(texts(names@) =~= Seq::<Seq<char>>::empty());
            reveal(Seq::filter);
        }
        while i < listing.len()
            invariant
                i <= listing.len(),
                total_ordering(name_order()),
                sorted_by(texts(names@), name_order()),
                texts(names@).to_multiset() == texts(listing@).take(i as int).filter(
                    playbook_filter(),
                ).to_multiset(),
            decreases listing.len() - i,
        {
            let name = &listing[i];
            proof {
                let done = texts(listing@).take(i as int);
                assert(texts(listing@).take(i + 1) =~= done.push(name@));
                done.lemma_filter_push(name@, playbook_filter());
            }
            if ends_with(name.as_str(), ".yaml") {
                let mut p: usize = 0;
                while p < names.len() && str_le(names[p].as_str(), name.as_str())
                    invariant
                        p <= names.len(),
                        forall|k: int| 0 <= k < p ==> name_le(texts(names@)[k], name@),
                    decreases names.len() - p,
                {
                    p += 1;
                }
                let ghost before = texts(names@);
                names.insert(p, name.clone());
                proof {
                    let after = texts(names@);
                    assert(after =~= before.insert(p as int, name@));
                    vstd::seq_lib::to_multiset_insert(before, p as int, name@);
                    vstd::seq_lib::to_multiset_build(
                        texts(listing@).take(i as int).filter(playbook_filter()),
                        name@,
                    );
                    assert forall|a: int, b: int| 0 <= a < b < after.len() implies name_order()(
                        after[a],
                        after[b],
                    ) by {
                        if b < p {
                            assert(after[a] == before[a] && after[b] == before[b]);
                        } else if b == p {
                            assert(after[a] == before[a]);
                        } else if a < p {
                            assert(after[a] == before[a] && after[b] == before[b - 1]);
                        } else if a == p {
                            assert(after[b] == before[b - 1]);
                            assert(!name_le(before[p as int], name@));
                            assert(name_order()(before[p as int], name@) || name_order()(
                                name@,
                                before[p as int],
                            ));
                            if b - 1 > p {
                                assert(name_order()(before[p as int], before[b - 1]));
                            }
                        } else {
                            assert(after[a] == before[a - 1] && after[b] == before[b - 1]);
                        }
                    }
                }
            }
            i += 1;
        }
        proof {
            assert(texts(listing@).take(listing.len() as int) =~= texts(listing@));
            let kept = texts(listing@).filter(playbook_filter());
            kept.lemma_sort_by_ensures(name_order());
            lemma_sorted_unique(texts(names@), kept.sort_by(name_order()), name_order());
        }
        PlaybookIndex { names }
    }

    /// The number of playbooks.
    pub fn len(&self) -> (r: usize)
        ensures
            r == self@.len(),
    {
        self.names.len()
    }

    /// The file name at position `i`.
    pub fn get(&self, i: usize) -> (r: &String)
        requires
            i < self@.len(),
        ensures
            r@ == self@[i as int],
    {
        &self.names[i]
    }

    /// The file name under `ordinal`, if the index has that ordinal.
    pub fn name_at(&self, ordinal: u64) -> (r: Option<&String>)
        ensures
            match r {
                Some(name) => ordinal < self@.len() && name@ == self@[ordinal as int],
                None => ordinal >= self@.len(),
            },
    {
        if ordinal < self.names.len() as u64 {
            Some(&self.names[ordinal as usize])
        } else {
            None
        }
    }

    /// The ordinal of the first playbook named `name`, if there is one.
    pub fn ordinal_of(&self, name: &str) -> (r: Option<u64>)
        ensures
            match r {
                Some(k) => k == position_of(self@, name@) && k < self@.len(),
                None => position_of(self@, name@) == self@.len(),
            },
    {
        let mut i: usize = 0;
        assert(self@.skip(0) =~= self@);
        while i < self.names.len()
            invariant
                i <= self.names.len(),
                position_of(self@, name@) == i + position_of(self@.skip(i as int), name@),
            decreases self.names.len() - i,
        {
            assert(self@.skip(i as int).drop_first() =~= self@.skip(i + 1));
            assert(self@.skip(i as int)[0] == self.names@[i as int]@);
            if str_eq(self.names[i].as_str(), name) {
                return Some(i as u64);
            }
            i += 1;
        }
        None
    }
}

/// Keeping part of a sequence without duplicates leaves no duplicates.
proof fn lemma_filter_no_duplicates(s: Seq<Seq<char>>, pred: spec_fn(Seq<char>) -> bool)
    requires
        s.no_duplicates(),
    ensures
        s.filter(pred).no_duplicates(),
    decreases s.len(),
{
    reveal(Seq::filter);
    if s.len() > 0 {
        let rest = s.drop_last();
        lemma_filter_no_duplicates(rest, pred);
        if pred(s.last()) {
            let kept = rest.filter(pred);
            if kept.contains(s.last()) {
                rest.lemma_filter_contains_rev(pred, s.last());
                let j = choose|j: int| 0 <= j < rest.len() && rest[j] == s.last();
                assert(s[j] == s[s.len() - 1]);
            }
        }
    }
}

/// Keeping the members of a sequence that all pass the test keeps them all.
proof fn lemma_filter_all(s: Seq<Seq<char>>, pred: spec_fn(Seq<char>) -> bool)
    requires
        forall|i: int| 0 <= i < s.len() ==> pred(#[trigger] s[i]),
    ensures
        s.filter(pred) == s,
    decreases s.len(),
{
    reveal(Seq::filter);
    if s.len() > 0 {
        let rest = s.drop_last();
        assert forall|i: int| 0 <= i < rest.len() implies pred(#[trigger] rest[i]) by {
            assert(rest[i] == s[i]);
        }
        lemma_filter_all(rest, pred);
        assert(pred(s[s.len() - 1]));
        assert(rest.push(s.last()) =~= s);
    }
}

/// The index holds exactly the playbook names of the listing.
pub proof fn lemma_index_members(names: Seq<Seq<char>>, name: Seq<char>)
    ensures
        index_of(names).contains(name) <==> names.contains(name) && is_playbook_name(name),
{
    broadcast use vstd::seq_lib::group_to_multiset_ensures;

    lemma_name_le_total_ordering();
    let kept = names.filter(playbook_filter());
    kept.lemma_sort_by_ensures(name_order());
    assert(index_of(names).contains(name) <==> kept.contains(name)) by {
        assert(kept.to_multiset().count(name) == index_of(names).to_multiset().count(name));
    }
    if kept.contains(name) {
        names.lemma_filter_contains_rev(playbook_filter(), name);
        let j = choose|j: int| 0 <= j < kept.len() && kept[j] == name;
        names.lemma_filter_pred(playbook_filter(), j);
    }
    if names.contains(name) && is_playbook_name(name) {
        let j = choose|j: int| 0 <= j < names.len() && names[j] == name;
        names.lemma_filter_contains(playbook_filter(), j);
    }
}

/// The ordinals of an index are the numbers from zero up to, not including,
/// the number of playbooks, and they follow the order of the file names:
/// of two playbooks the one with the smaller ordinal has the smaller name.
/// Where the listing names no file twice, the order is strict.
pub proof fn lemma_index_ordinals(names: Seq<Seq<char>>)
    ensures
        forall|i: int, j: int|
            0 <= i < j < index_of(names).len() ==> name_le(
                #[trigger] index_of(names)[i],
                #[trigger] index_of(names)[j],
            ),
        names.no_duplicates() ==> forall|i: int, j: int|
            0 <= i < j < index_of(names).len() ==> !name_le(
                #[trigger] index_of(names)[j],
                #[trigger] index_of(names)[i],
            ),
        names.no_duplicates() ==> index_of(names).no_duplicates(),
{
    lemma_name_le_total_ordering();
    let kept = names.filter(playbook_filter());
    let ix = index_of(names);
    kept.lemma_sort_by_ensures(name_order());
    assert forall|i: int, j: int| 0 <= i < j < ix.len() implies name_le(
        #[trigger] ix[i],
        #[trigger] ix[j],
    ) by {
        assert(name_order()(ix[i], ix[j]));
    }
    if names.no_duplicates() {
        lemma_filter_no_duplicates(names, playbook_filter());
        kept.lemma_multiset_has_no_duplicates();
        ix.lemma_multiset_has_no_duplicates_conv();
        assert forall|i: int, j: int| 0 <= i < j < ix.len() implies !name_le(
            #[trigger] ix[j],
            #[trigger] ix[i],
        ) by {
            assert(name_order()(ix[i], ix[j]));
            if name_le(ix[j], ix[i]) {
                assert(name_order()(ix[j], ix[i]));
            }
        }
    }
}

/// Enumerating gives the same index whenever the listing is the same, and
/// enumerating the names of an index gives that index again.
pub proof fn lemma_index_idempotent(names: Seq<Seq<char>>)
    ensures
        index_of(index_of(names)) == index_of(names),
{
    lemma_name_le_total_ordering();
    let ix = index_of(names);
    assert forall|i: int| 0 <= i < ix.len() implies playbook_filter()(#[trigger] ix[i]) by {
        assert(ix.contains(ix[i]));
        lemma_index_members(names, ix[i]);
    }
    lemma_filter_all(ix, playbook_filter());
    names.filter(playbook_filter()).lemma_sort_by_ensures(name_order());
    ix.lemma_sort_by_ensures(name_order());
    lemma_sorted_unique(ix.sort_by(name_order()), ix, name_order());
}

/// Looking up the name that stands under an ordinal gives that ordinal back,
/// in an index that holds no name twice.
pub proof fn lemma_position_round_trip(index: Seq<Seq<char>>, k: int)
    requires
        index.no_duplicates(),
        0 <= k < index.len(),
    ensures
        position_of(index, index[k]) == k,
{
    lemma_position_of(index, index[k]);
}

} // verus!
