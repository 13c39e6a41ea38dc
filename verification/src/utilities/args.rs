//! Enumerating a directory's playbooks and resolving selection tokens
//! against them.

use crate::directory::Directory;
use crate::error::{ErrorView, PlaybookError};
use crate::index::{
    index_of, is_playbook_name, lemma_index_idempotent, lemma_index_members, lemma_index_ordinals,
    lemma_position_of, position_of, PlaybookIndex,
};
use crate::selection::{
    distinct_keys, lemma_mapping_take, lemma_placed_last, lemma_upsert, mapping_of, upsert,
    value_of, EnvOverride, Pairs, Selected, SelectedView, Selection,
};
use crate::text::{name_le, parse_index, parse_u64, split, split_at_char, texts};
use vstd::prelude::*;

verus! {

/// What enumerating `dir` gives: the index of its listing, or
/// `DirectoryNotFound` where it could not be listed.
pub open spec fn enumerate(dir: Directory) -> Result<Seq<Seq<char>>, ErrorView> {
    if dir.listed() {
        Ok(index_of(dir.names()))
    } else {
        Err(ErrorView::DirectoryNotFound(dir.path@))
    }
}

/// The file name under the ordinal `k` in `dir`.
pub open spec fn name_for_ordinal(dir: Directory, k: u64) -> Result<Seq<char>, ErrorView> {
    match enumerate(dir) {
        Err(e) => Err(e),
        Ok(index) => if k < index.len() {
            Ok(index[k as int])
        } else {
            Err(ErrorView::OrdinalNotFound(k))
        },
    }
}

/// The ordinal of the playbook named `name` in `dir`.
pub open spec fn ordinal_for_name(dir: Directory, name: Seq<char>) -> Result<u64, ErrorView> {
    match enumerate(dir) {
        Err(e) => Err(e),
        Ok(index) => if position_of(index, name) < index.len() {
            Ok(position_of(index, name) as u64)
        } else {
            Err(ErrorView::NameNotFound(name))
        },
    }
}

/// Enumerates the playbooks of `dir`: the files whose name ends in `.yaml`,
/// sorted by name, each under its position as ordinal.
pub fn map_files(dir: &Directory) -> (r: Result<PlaybookIndex, PlaybookError>)
    ensures
        match r {
            Ok(index) => enumerate(*dir) == Ok::<Seq<Seq<char>>, ErrorView>(index@),
            Err(e) => enumerate(*dir) == Err::<Seq<Seq<char>>, ErrorView>(e@),
        },
{
    match &dir.entries {
        None => Err(PlaybookError::DirectoryNotFound(dir.path.clone())),
        Some(entries) => {
            let mut listing: Vec<String> = Vec::new();
            let mut i: usize = 0;
            while i < entries.len()
                invariant
                    i <= entries.len(),
                    listing@.len() == i,
                    forall|k: int| 0 <= k < i ==> listing@[k]@ == entries@[k].name@,
                decreases entries.len() - i,
            {
                listing.push(entries[i].name.clone());
                i += 1;
            }
            assert(texts(listing@) =~= dir.names());
            Ok(PlaybookIndex::build(&listing))
        },
    }
}

/// The file name of the playbook under the ordinal `file_num` in `dir`.
pub fn map_name(file_num: &u64, dir: &Directory) -> (r: Result<String, PlaybookError>)
    ensures
        match r {
            Ok(name) => name_for_ordinal(*dir, *file_num) == Ok::<Seq<char>, ErrorView>(name@),
            Err(e) => name_for_ordinal(*dir, *file_num) == Err::<Seq<char>, ErrorView>(e@),
        },
{
    match map_files(dir) {
        Err(e) => Err(e),
        Ok(index) => match index.name_at(*file_num) {
            Some(name) => Ok(name.clone()),
            None => Err(PlaybookError::OrdinalNotFound(*file_num)),
        },
    }
}

/// The ordinal of the playbook named `file_name` in `dir`.
pub fn map_num(file_name: &str, dir: &Directory) -> (r: Result<u64, PlaybookError>)
    ensures
        match r {
            Ok(k) => ordinal_for_name(*dir, file_name@) == Ok::<u64, ErrorView>(k),
            Err(e) => ordinal_for_name(*dir, file_name@) == Err::<u64, ErrorView>(e@),
        },
{
    match map_files(dir) {
        Err(e) => Err(e),
        Ok(index) => match index.ordinal_of(file_name) {
            Some(k) => Ok(k),
            None => Err(PlaybookError::NameNotFound(file_name.to_owned())),
        },
    }
}

/// The ordinals of a directory's playbooks are the numbers from zero up to,
/// not including, the number of playbooks. They follow the order of the file
/// names strictly: of two playbooks the one with the smaller ordinal has the
/// smaller name. The playbooks are the files of the listing whose name ends
/// in `.yaml`, and enumerating again gives the same index.
pub proof fn lemma_enumerate(dir: Directory)
    requires
        dir.wf(),
        dir.listed(),
    ensures
        enumerate(dir) is Ok,
        forall|k: u64| name_for_ordinal(dir, k) is Ok <==> k < enumerate(dir)->Ok_0.len(),
        forall|i: int, j: int|
            0 <= i < j < enumerate(dir)->Ok_0.len() ==> name_le(
                #[trigger] enumerate(dir)->Ok_0[i],
                #[trigger] enumerate(dir)->Ok_0[j],
            ) && enumerate(dir)->Ok_0[i] != enumerate(dir)->Ok_0[j],
        forall|name: Seq<char>|
            #![trigger enumerate(dir)->Ok_0.contains(name)]
            #![trigger dir.names().contains(name)]
            enumerate(dir)->Ok_0.contains(name) <==> dir.names().contains(name)
                && is_playbook_name(name),
        index_of(enumerate(dir)->Ok_0) == enumerate(dir)->Ok_0,
{
    let index = index_of(dir.names());
    lemma_index_ordinals(dir.names());
    lemma_index_idempotent(dir.names());
    assert forall|name: Seq<char>|
        #![trigger enumerate(dir)->Ok_0.contains(name)]
        #![trigger dir.names().contains(name)]
        enumerate(dir)->Ok_0.contains(name) <==> dir.names().contains(name) && is_playbook_name(
            name,
        ) by {
        lemma_index_members(dir.names(), name);
    }
}

/// Looking up by name what was found by ordinal gives the ordinal back.
pub proof fn lemma_ordinal_round_trip(dir: Directory, k: u64)
    requires
        dir.wf(),
        name_for_ordinal(dir, k) is Ok,
    ensures
        ordinal_for_name(dir, name_for_ordinal(dir, k)->Ok_0) == Ok::<u64, ErrorView>(k),
{
    let index = index_of(dir.names());
    lemma_index_ordinals(dir.names());
    lemma_position_of(index, index[k as int]);
}

/// What a selection token refers to.
#[derive(Debug, Clone, PartialEq, Eq)]
pub enum Reference {
    /// One ordinal.
    Index(u64),
    /// Every ordinal from the first to the second, both included.
    Range(u64, u64),
    /// A file name.
    Name(String),
}

/// What a selection token refers to, over sequences of characters.
pub enum ReferenceView {
    Index(u64),
    Range(u64, u64),
    Name(Seq<char>),
}

impl View for Reference {
    type V = ReferenceView;

    open spec fn view(&self) -> ReferenceView {
        match *self {
            Reference::Index(k) => ReferenceView::Index(k),
            Reference::Range(a, b) => ReferenceView::Range(a, b),
            Reference::Name(n) => ReferenceView::Name(n@),
        }
    }
}

/// How a token is read. A token without a hyphen is an index if all of it
/// writes one. A token with exactly one hyphen is a range if both sides
/// write an index. Every other token is a file name.
pub open spec fn reference_of(token: Seq<char>) -> ReferenceView {
    let parts = split(token, '-');
    if parts.len() == 1 {
        match parse_index(token) {
            Some(k) => ReferenceView::Index(k),
            None => ReferenceView::Name(token),
        }
    } else if parts.len() == 2 && parse_index(parts[0]) is Some && parse_index(parts[1]) is Some {
        ReferenceView::Range(parse_index(parts[0])->Some_0, parse_index(parts[1])->Some_0)
    } else {
        ReferenceView::Name(token)
    }
}

/// Reads a selection token.
pub fn classify(token: &str) -> (r: Reference)
    ensures
        r@ == reference_of(token@),
{
    let parts = split_at_char(token, '-');
    assert(texts(parts@).len() == parts@.len());
    if parts.len() == 1 {
        match parse_u64(token) {
            Some(k) => Reference::Index(k),
            None => Reference::Name(token.to_owned()),
        }
    } else if parts.len() == 2 {
        assert(texts(parts@)[0] == parts@[0]@ && texts(parts@)[1] == parts@[1]@);
        match (parse_u64(parts[0].as_str()), parse_u64(parts[1].as_str())) {
            (Some(a), Some(b)) => Reference::Range(a, b),
            _ => Reference::Name(token.to_owned()),
        }
    } else {
        Reference::Name(token.to_owned())
    }
}

/// Whether the reference `r` selects the ordinal `k` of `index`. A range
/// selects the ordinals from its start to its end, both included, and none
/// where its end lies before its start.
pub open spec fn picks(r: ReferenceView, index: Seq<Seq<char>>, k: u64) -> bool {
    match r {
        ReferenceView::Index(n) => n == k,
        ReferenceView::Range(a, b) => a <= k <= b,
        ReferenceView::Name(n) => position_of(index, n) == k,
    }
}

/// The file name that `r` asks for and `index` lacks, if `r` is such a name.
pub open spec fn missing_name(r: ReferenceView, index: Seq<Seq<char>>) -> Option<Seq<char>> {
    match r {
        ReferenceView::Name(n) => if position_of(index, n) < index.len() {
            None
        } else {
            Some(n)
        },
        _ => None,
    }
}

/// The first ordinal that `r` asks for and `index` lacks, if there is one.
/// A range whose end lies before its start asks for nothing.
pub open spec fn missing_ordinal(r: ReferenceView, index: Seq<Seq<char>>) -> Option<u64> {
    match r {
        ReferenceView::Index(k) => if k < index.len() {
            None
        } else {
            Some(k)
        },
        ReferenceView::Range(a, b) => if a <= b && b >= index.len() {
            if a > index.len() {
                Some(a)
            } else {
                Some(index.len() as u64)
            }
        } else {
            None
        },
        ReferenceView::Name(_) => None,
    }
}

/// The missing file name of the first token that asks for one.
pub open spec fn first_missing_name(tokens: Seq<Seq<char>>, index: Seq<Seq<char>>) -> Option<
    Seq<char>,
>
    decreases tokens.len(),
{
    if tokens.len() == 0 {
        None
    } else {
        match missing_name(reference_of(tokens[0]), index) {
            Some(n) => Some(n),
            None => first_missing_name(tokens.drop_first(), index),
        }
    }
}

/// The missing ordinal of the first token that asks for one.
pub open spec fn first_missing_ordinal(tokens: Seq<Seq<char>>, index: Seq<Seq<char>>) -> Option<
    u64,
>
    decreases tokens.len(),
{
    if tokens.len() == 0 {
        None
    } else {
        match missing_ordinal(reference_of(tokens[0]), index) {
            Some(k) => Some(k),
            None => first_missing_ordinal(tokens.drop_first(), index),
        }
    }
}

/// Whether the token at position `i` selects the ordinal `k`.
pub open spec fn token_picks(tokens: Seq<Seq<char>>, index: Seq<Seq<char>>, i: int, k: u64) -> bool {
    0 <= i < tokens.len() && picks(reference_of(tokens[i]), index, k)
}

/// Whether some token selects the ordinal `k`.
pub open spec fn selects(tokens: Seq<Seq<char>>, index: Seq<Seq<char>>, k: u64) -> bool {
    exists|i: int| token_picks(tokens, index, i, k)
}

/// What the tokens resolve to against `index`. A file name that the index
/// lacks fails the whole, the first such name in the order of the tokens;
/// failing that, the first ordinal that the index lacks does. Otherwise the
/// result maps every selected ordinal to its file name, with no overrides.
pub open spec fn resolve_in(tokens: Seq<Seq<char>>, index: Seq<Seq<char>>) -> Result<
    Map<u64, (Seq<char>, Pairs)>,
    ErrorView,
> {
    match first_missing_name(tokens, index) {
        Some(n) => Err(ErrorView::NameNotFound(n)),
        None => match first_missing_ordinal(tokens, index) {
            Some(k) => Err(ErrorView::OrdinalNotFound(k)),
            None => Ok(
                Map::new(
                    |k: u64| selects(tokens, index, k),
                    |k: u64| (index[k as int], Pairs::empty()),
                ),
            ),
        },
    }
}

/// What the tokens resolve to in `dir`.
pub open spec fn resolve(tokens: Seq<Seq<char>>, dir: Directory) -> Result<
    Map<u64, (Seq<char>, Pairs)>,
    ErrorView,
> {
    match enumerate(dir) {
        Err(e) => Err(e),
        Ok(index) => resolve_in(tokens, index),
    }
}

/// Whether one of the first `names` tokens, if it is a file name, or one of
/// the first `numbers` tokens, if it is not, selects the ordinal `k`.
spec fn picked(
    tokens: Seq<Seq<char>>,
    index: Seq<Seq<char>>,
    names: int,
    numbers: int,
    k: u64,
) -> bool {
    exists|i: int| #[trigger]
        token_picks(tokens, index, i, k) && if reference_of(tokens[i]) is Name {
            i < names
        } else {
            i < numbers
        }
}

/// The mapping of the ordinals picked so far, and of those from `from` up to,
/// not including, `upto`.
spec fn picked_map(
    tokens: Seq<Seq<char>>,
    index: Seq<Seq<char>>,
    names: int,
    numbers: int,
    from: u64,
    upto: int,
) -> Map<u64, (Seq<char>, Pairs)> {
    Map::new(
        |k: u64| picked(tokens, index, names, numbers, k) || from <= k < upto,
        |k: u64| (index[k as int], Pairs::empty()),
    )
}

/// Resolves the tokens against an index.
pub fn resolve_tokens(args: &Vec<String>, index: &PlaybookIndex) -> (r: Result<Selection, PlaybookError>)
    ensures
        match r {
            Ok(selection) => selection.wf() && resolve_in(texts(args@), index@) == Ok::<
                Map<u64, (Seq<char>, Pairs)>,
                ErrorView,
            >(selection.mapping()),
            Err(e) => resolve_in(texts(args@), index@) == Err::<
                Map<u64, (Seq<char>, Pairs)>,
                ErrorView,
            >(e@),
        },
{
    let ghost tokens = texts(args@);
    let ghost ix = index@;
    let n = args.len();
    let mut refs: Vec<Reference> = Vec::new();
    let mut i: usize = 0;
    while i < n
        invariant
            i <= n,
            n == args.len(),
            refs.len() == i,
            tokens == texts(args@),
            forall|j: int| 0 <= j < i ==> (#[trigger] refs@[j])@ == reference_of(tokens[j]),
        decreases n - i,
    {
        refs.push(classify(args[i].as_str()));
        i += 1;
    }
    let mut selection = Selection::new();
    i = 0;
    proof {
        assert(tokens.skip(0) =~= tokens);
        assert(selection.mapping() =~= picked_map(tokens, ix, 0, 0, 0, 0));
    }
    while i < n
        invariant
            i <= n,
            n == tokens.len(),
            refs.len() == n,
            ix == index@,
            tokens == texts(args@),
            forall|j: int| 0 <= j < n ==> (#[trigger] refs@[j])@ == reference_of(tokens[j]),
            selection.wf(),
            first_missing_name(tokens, ix) == first_missing_name(tokens.skip(i as int), ix),
            selection.mapping() == picked_map(tokens, ix, i as int, 0, 0, 0),
        decreases n - i,
    {
        proof {
            assert(tokens.skip(i as int).drop_first() =~= tokens.skip(i + 1));
            assert(tokens.skip(i as int)[0] == tokens[i as int]);
            assert(refs@[i as int]@ == reference_of(tokens[i as int]));
        }
        let ghost before = selection.mapping();
        let ghost target = picked_map(tokens, ix, i + 1, 0, 0, 0);
        match &refs[i] {
            Reference::Name(name) => {
                match index.ordinal_of(name.as_str()) {
                    None => {
                        return Err(PlaybookError::NameNotFound(name.clone()));
                    },
                    Some(k) => {
                        selection.insert(
                            Selected { ordinal: k, name: name.clone(), envs: EnvOverride::new() },
                        );
                        proof {
                            lemma_position_of(ix, name@);
                            let after = before.insert(k, (ix[k as int], Pairs::empty()));
                            assert(selection.mapping() == after);
                            assert forall|m: u64|
                                target.dom().contains(m) <==> after.dom().contains(m) by {
                                lemma_picked_name_step(tokens, ix, i as int, 0, m);
                            }
                            assert(after =~= target);
                        }
                    },
                }
            },
            _ => {
                proof {
                    assert forall|m: u64|
                        target.dom().contains(m) <==> before.dom().contains(m) by {
                        lemma_picked_name_step(tokens, ix, i as int, 0, m);
                    }
                    assert(before =~= target);
                }
            },
        }
        i += 1;
    }
    i = 0;
    proof {
        assert(tokens.skip(n as int) =~= Seq::<Seq<char>>::empty());
        assert(tokens.skip(0) =~= tokens);
    }
    while i < n
        invariant
            i <= n,
            n == tokens.len(),
            refs.len() == n,
            ix == index@,
            tokens == texts(args@),
            forall|j: int| 0 <= j < n ==> (#[trigger] refs@[j])@ == reference_of(tokens[j]),
            selection.wf(),
            first_missing_name(tokens, ix) is None,
            first_missing_ordinal(tokens, ix) == first_missing_ordinal(tokens.skip(i as int), ix),
            selection.mapping() == picked_map(tokens, ix, n as int, i as int, 0, 0),
        decreases n - i,
    {
        proof {
            assert(tokens.skip(i as int).drop_first() =~= tokens.skip(i + 1));
            assert(tokens.skip(i as int)[0] == tokens[i as int]);
            assert(refs@[i as int]@ == reference_of(tokens[i as int]));
        }
        let ghost before = selection.mapping();
        match &refs[i] {
            Reference::Name(_) => {
                proof {
                    assert forall|m: u64|
                        picked(tokens, ix, n as int, i + 1, m) <==> picked(
                            tokens,
                            ix,
                            n as int,
                            i as int,
                            m,
                        ) by {
                        lemma_picked_step(tokens, ix, n as int, i as int, m);
                    }
                    assert(selection.mapping() =~= picked_map(tokens, ix, n as int, i + 1, 0, 0));
                }
            },
            Reference::Index(k) => {
                match index.name_at(*k) {
                    None => {
                        return Err(PlaybookError::OrdinalNotFound(*k));
                    },
                    Some(name) => {
                        selection.insert(
                            Selected { ordinal: *k, name: name.clone(), envs: EnvOverride::new() },
                        );
                        proof {
                            assert(reference_of(tokens[i as int]) == ReferenceView::Index(*k));
                            let target = picked_map(tokens, ix, n as int, i + 1, 0, 0);
                            let after = before.insert(*k, (ix[*k as int], Pairs::empty()));
                            assert(selection.mapping() == after);
                            assert forall|m: u64|
                                target.dom().contains(m) <==> after.dom().contains(m) by {
                                lemma_picked_step(tokens, ix, n as int, i as int, m);
                            }
                            assert(after =~= target);
                        }
                    },
                }
            },
            Reference::Range(a, b) => {
                if *a <= *b {
                    let len = index.len() as u64;
                    if *b >= len {
                        return Err(
                            PlaybookError::OrdinalNotFound(
                                if *a > len {
                                    *a
                                } else {
                                    len
                                },
                            ),
                        );
                    }
                    let mut k: u64 = *a;
                    proof {
                        assert(selection.mapping() =~= picked_map(
                            tokens,
                            ix,
                            n as int,
                            i as int,
                            *a,
                            k as int,
                        ));
                    }
                    while k <= *b
                        invariant
                            *a <= k <= *b + 1,
                            *b < ix.len(),
                            *b < len <= usize::MAX,
                            ix == index@,
                            selection.wf(),
                            selection.mapping() == picked_map(
                                tokens,
                                ix,
                                n as int,
                                i as int,
                                *a,
                                k as int,
                            ),
                        decreases *b + 1 - k,
                    {
                        selection.insert(
                            Selected {
                                ordinal: k,
                                name: index.get(k as usize).clone(),
                                envs: EnvOverride::new(),
                            },
                        );
                        proof {
                            assert(selection.mapping() =~= picked_map(
                                tokens,
                                ix,
                                n as int,
                                i as int,
                                *a,
                                k + 1,
                            ));
                        }
                        k += 1;
                    }
                }
                proof {
                    assert(reference_of(tokens[i as int]) == ReferenceView::Range(*a, *b));
                    let target = picked_map(tokens, ix, n as int, i + 1, 0, 0);
                    let during = picked_map(
                        tokens,
                        ix,
                        n as int,
                        i as int,
                        *a,
                        if *a <= *b {
                            *b + 1
                        } else {
                            *a as int
                        },
                    );
                    assert(selection.mapping() =~= during);
                    assert forall|m: u64| target.dom().contains(m) <==> during.dom().contains(m) by {
                        lemma_picked_step(tokens, ix, n as int, i as int, m);
                    }
                    assert(during =~= target);
                }
            },
        }
        i += 1;
    }
    proof {
        assert(tokens.skip(n as int) =~= Seq::<Seq<char>>::empty());
        assert forall|m: u64| picked(tokens, ix, n as int, n as int, m) <==> selects(
            tokens,
            ix,
            m,
        ) by {
            if picked(tokens, ix, n as int, n as int, m) {
                let j = choose|j: int| #[trigger]
                    token_picks(tokens, ix, j, m) && if reference_of(tokens[j]) is Name {
                        j < n
                    } else {
                        j < n
                    };
                assert(token_picks(tokens, ix, j, m));
            }
            if selects(tokens, ix, m) {
                let j = choose|j: int| token_picks(tokens, ix, j, m);
                assert(token_picks(tokens, ix, j, m));
            }
        }
        assert(selection.mapping() =~= Map::new(
            |k: u64| selects(tokens, ix, k),
            |k: u64| (ix[k as int], Pairs::empty()),
        ));
    }
    Ok(selection)
}

/// What one more token of names adds to the ordinals picked so far: the
/// ordinal that the token selects, if it is a file name.
proof fn lemma_picked_name_step(
    tokens: Seq<Seq<char>>,
    index: Seq<Seq<char>>,
    i: int,
    numbers: int,
    m: u64,
)
    requires
        0 <= i < tokens.len(),
    ensures
        picked(tokens, index, i + 1, numbers, m) <==> picked(tokens, index, i, numbers, m) || (
        reference_of(tokens[i]) is Name && picks(reference_of(tokens[i]), index, m)),
{
    if picked(tokens, index, i + 1, numbers, m) {
        let j = choose|j: int| #[trigger]
            token_picks(tokens, index, j, m) && if reference_of(tokens[j]) is Name {
                j < i + 1
            } else {
                j < numbers
            };
        if !(j == i && reference_of(tokens[i]) is Name) {
            assert(token_picks(tokens, index, j, m));
        }
    }
    if picked(tokens, index, i, numbers, m) {
        let j = choose|j: int| #[trigger]
            token_picks(tokens, index, j, m) && if reference_of(tokens[j]) is Name {
                j < i
            } else {
                j < numbers
            };
        assert(token_picks(tokens, index, j, m));
    }
    if reference_of(tokens[i]) is Name && picks(reference_of(tokens[i]), index, m) {
        assert(token_picks(tokens, index, i, m));
    }
}

/// What one more token of numbers adds to the ordinals picked so far: the
/// ordinals that the token selects, if it is no file name.
proof fn lemma_picked_step(
    tokens: Seq<Seq<char>>,
    index: Seq<Seq<char>>,
    names: int,
    i: int,
    m: u64,
)
    requires
        0 <= i < tokens.len(),
    ensures
        picked(tokens, index, names, i + 1, m) <==> picked(tokens, index, names, i, m) || (!(
        reference_of(tokens[i]) is Name) && picks(reference_of(tokens[i]), index, m)),
{
    if picked(tokens, index, names, i + 1, m) {
        let j = choose|j: int| #[trigger]
            token_picks(tokens, index, j, m) && if reference_of(tokens[j]) is Name {
                j < names
            } else {
                j < i + 1
            };
        if !(j == i && !(reference_of(tokens[i]) is Name)) {
            assert(token_picks(tokens, index, j, m));
        }
    }
    if picked(tokens, index, names, i, m) {
        let j = choose|j: int| #[trigger]
            token_picks(tokens, index, j, m) && if reference_of(tokens[j]) is Name {
                j < names
            } else {
                j < i
            };
        assert(token_picks(tokens, index, j, m));
    }
    if !(reference_of(tokens[i]) is Name) && picks(reference_of(tokens[i]), index, m) {
        assert(token_picks(tokens, index, i, m));
    }
}

/// Resolves the tokens in `dir`: indices, ranges and file names, to the
/// ordinals they select, each with the file name of its playbook.
pub fn arg_parse(args: &Vec<String>, dir: &Directory) -> (r: Result<Selection, PlaybookError>)
    ensures
        match r {
            Ok(selection) => selection.wf() && resolve(texts(args@), *dir) == Ok::<
                Map<u64, (Seq<char>, Pairs)>,
                ErrorView,
            >(selection.mapping()),
            Err(e) => resolve(texts(args@), *dir) == Err::<
                Map<u64, (Seq<char>, Pairs)>,
                ErrorView,
            >(e@),
        },
{
    match map_files(dir) {
        Err(e) => Err(e),
        Ok(index) => resolve_tokens(args, &index),
    }
}

/// The key and the value that a segment assigns: what stands before and
/// after its one `=`. A segment with no `=`, or with more than one, assigns
/// nothing.
pub open spec fn assignment(segment: Seq<char>) -> Option<(Seq<char>, Seq<char>)> {
    let parts = split(segment, '=');
    if parts.len() == 2 {
        Some((parts[0], parts[1]))
    } else {
        None
    }
}

/// `base` after the assignments of the segments, made in order: a later
/// value for a key replaces an earlier one. The first segment that assigns
/// nothing fails the whole.
pub open spec fn assignments(base: Pairs, segments: Seq<Seq<char>>) -> Result<Pairs, ErrorView>
    decreases segments.len(),
{
    if segments.len() == 0 {
        Ok(base)
    } else {
        match assignments(base, segments.drop_last()) {
            Err(e) => Err(e),
            Ok(pairs) => match assignment(segments.last()) {
                None => Err(ErrorView::MalformedEnvAssignment(segments.last())),
                Some(kv) => Ok(upsert(pairs, kv.0, kv.1)),
            },
        }
    }
}

/// Reads one `KEY=VALUE` segment.
pub fn parse_assignment(segment: &str) -> (r: Option<(String, String)>)
    ensures
        match r {
            Some(kv) => assignment(segment@) == Some((kv.0@, kv.1@)),
            None => assignment(segment@) is None,
        },
{
    let parts = split_at_char(segment, '=');
    assert(texts(parts@).len() == parts@.len());
    if parts.len() == 2 {
        assert(texts(parts@)[0] == parts@[0]@ && texts(parts@)[1] == parts@[1]@);
        Some((parts[0].clone(), parts[1].clone()))
    } else {
        None
    }
}

/// Makes the assignments of the segments from position `from` on, in order,
/// on top of `base`.
fn read_assignments(base: EnvOverride, segments: &Vec<String>, from: usize) -> (r: Result<
    EnvOverride,
    PlaybookError,
>)
    requires
        from <= segments.len(),
    ensures
        match r {
            Ok(envs) => assignments(base@, texts(segments@).skip(from as int)) == Ok::<
                Pairs,
                ErrorView,
            >(envs@) && (base.wf() ==> envs.wf()),
            Err(e) => assignments(base@, texts(segments@).skip(from as int)) == Err::<
                Pairs,
                ErrorView,
            >(e@),
        },
{
    let ghost rest = texts(segments@).skip(from as int);
    let mut envs = base;
    let mut i: usize = from;
    proof {
        assert(rest.take(0) =~= Seq::<Seq<char>>::empty());
    }
    while i < segments.len()
        invariant
            from <= i <= segments.len(),
            rest == texts(segments@).skip(from as int),
            assignments(base@, rest.take(i - from)) == Ok::<Pairs, ErrorView>(envs@),
            base.wf() ==> envs.wf(),
        decreases segments.len() - i,
    {
        proof {
            assert(rest.take(i - from + 1).drop_last() =~= rest.take(i - from));
            assert(rest.take(i - from + 1).last() == segments@[i as int]@);
        }
        match parse_assignment(segments[i].as_str()) {
            None => {
                proof {
                    lemma_assignments_fail(base@, rest, i - from + 1);
                }
                return Err(PlaybookError::MalformedEnvAssignment(segments[i].clone()));
            },
            Some(kv) => {
                envs.insert(kv.0, kv.1);
            },
        }
        i += 1;
    }
    proof {
        assert(rest.take(i - from) =~= rest);
    }
    Ok(envs)
}

/// Once the assignments of the first segments have failed, those of all of
/// them fail the same way.
proof fn lemma_assignments_fail(base: Pairs, segments: Seq<Seq<char>>, k: int)
    requires
        0 <= k <= segments.len(),
        assignments(base, segments.take(k)) is Err,
    ensures
        assignments(base, segments) == assignments(base, segments.take(k)),
    decreases segments.len() - k,
{
    if k == segments.len() {
        assert(segments.take(k) =~= segments);
    } else {
        assert(segments.take(k + 1).drop_last() =~= segments.take(k));
        lemma_assignments_fail(base, segments, k + 1);
    }
}

/// `base` with the assignments that `text` lists, separated by commas, made
/// on top of it.
pub fn merge_assignments(base: EnvOverride, text: &str) -> (r: Result<EnvOverride, PlaybookError>)
    ensures
        match r {
            Ok(envs) => assignments(base@, split(text@, ',')) == Ok::<Pairs, ErrorView>(envs@) && (
            base.wf() ==> envs.wf()),
            Err(e) => assignments(base@, split(text@, ',')) == Err::<Pairs, ErrorView>(e@),
        },
{
    let segments = split_at_char(text, ',');
    assert(texts(segments@).skip(0) =~= texts(segments@));
    read_assignments(base, &segments, 0)
}

/// `m` with `pairs` as the overrides of every entry.
pub open spec fn with_overrides(m: Map<u64, (Seq<char>, Pairs)>, pairs: Pairs) -> Map<
    u64,
    (Seq<char>, Pairs),
> {
    Map::new(|k: u64| m.dom().contains(k), |k: u64| (m[k].0, pairs))
}

/// What one token with environment assignments resolves to. The token's
/// first segment, up to the first comma, is the reference; each further
/// segment assigns one key. A token without a comma resolves as it does
/// without assignments. With assignments the reference must be an index or
/// a file name: a range is refused as malformed, since the assignments
/// cannot belong to several playbooks.
pub open spec fn token_entry(token: Seq<char>, index: Seq<Seq<char>>) -> Result<
    Map<u64, (Seq<char>, Pairs)>,
    ErrorView,
> {
    let segments = split(token, ',');
    if segments.len() == 1 {
        resolve_in(seq![token], index)
    } else {
        match assignments(Pairs::empty(), segments.skip(1)) {
            Err(e) => Err(e),
            Ok(pairs) => if reference_of(segments[0]) is Range {
                Err(ErrorView::MalformedEnvAssignment(segments[0]))
            } else {
                match resolve_in(seq![segments[0]], index) {
                    Err(e) => Err(e),
                    Ok(m) => Ok(with_overrides(m, pairs)),
                }
            },
        }
    }
}

/// What the tokens resolve to against `index`, token by token: the first
/// token that fails fails the whole, and where two tokens select one
/// ordinal the later one stays.
pub open spec fn resolve_env_in(tokens: Seq<Seq<char>>, index: Seq<Seq<char>>) -> Result<
    Map<u64, (Seq<char>, Pairs)>,
    ErrorView,
>
    decreases tokens.len(),
{
    if tokens.len() == 0 {
        Ok(Map::empty())
    } else {
        match resolve_env_in(tokens.drop_last(), index) {
            Err(e) => Err(e),
            Ok(m) => match token_entry(tokens.last(), index) {
                Err(e) => Err(e),
                Ok(t) => Ok(m.union_prefer_right(t)),
            },
        }
    }
}

/// What the tokens, with their environment assignments, resolve to in `dir`.
pub open spec fn resolve_with_env(tokens: Seq<Seq<char>>, dir: Directory) -> Result<
    Map<u64, (Seq<char>, Pairs)>,
    ErrorView,
> {
    match enumerate(dir) {
        Err(e) => Err(e),
        Ok(index) => resolve_env_in(tokens, index),
    }
}

/// Once the first tokens have failed, all of them fail the same way.
proof fn lemma_resolve_env_fail(tokens: Seq<Seq<char>>, index: Seq<Seq<char>>, k: int)
    requires
        0 <= k <= tokens.len(),
        resolve_env_in(tokens.take(k), index) is Err,
    ensures
        resolve_env_in(tokens, index) == resolve_env_in(tokens.take(k), index),
    decreases tokens.len() - k,
{
    if k == tokens.len() {
        assert(tokens.take(k) =~= tokens);
    } else {
        assert(tokens.take(k + 1).drop_last() =~= tokens.take(k));
        lemma_resolve_env_fail(tokens, index, k + 1);
    }
}

/// Resolves one token with its environment assignments against an index.
pub fn resolve_entry(token: &str, index: &PlaybookIndex) -> (r: Result<Selection, PlaybookError>)
    ensures
        match r {
            Ok(selection) => selection.wf() && token_entry(token@, index@) == Ok::<
                Map<u64, (Seq<char>, Pairs)>,
                ErrorView,
            >(selection.mapping()),
            Err(e) => token_entry(token@, index@) == Err::<
                Map<u64, (Seq<char>, Pairs)>,
                ErrorView,
            >(e@),
        },
{
    let segments = split_at_char(token, ',');
    assert(texts(segments@).len() == segments@.len());
    proof {
        crate::text::lemma_split_nonempty(token@, ',');
    }
    if segments.len() < 2 {
        let mut one: Vec<String> = Vec::new();
        one.push(token.to_owned());
        assert(texts(one@) =~= seq![token@]);
        return resolve_tokens(&one, index);
    }
    assert(texts(segments@)[0] == segments@[0]@);
    let envs = match read_assignments(EnvOverride::new(), &segments, 1) {
        Err(e) => {
            return Err(e);
        },
        Ok(envs) => envs,
    };
    match classify(segments[0].as_str()) {
        Reference::Range(_, _) => {
            return Err(PlaybookError::MalformedEnvAssignment(segments[0].clone()));
        },
        _ => {},
    }
    let mut one: Vec<String> = Vec::new();
    one.push(segments[0].clone());
    assert(texts(one@) =~= seq![segments@[0]@]);
    let found = match resolve_tokens(&one, index) {
        Err(e) => {
            return Err(e);
        },
        Ok(found) => found,
    };
    let ghost m = found.mapping();
    let mut selection = Selection::new();
    let mut j: usize = 0;
    proof {
        assert(found@.take(0) =~= Seq::<SelectedView>::empty());
        assert(selection.mapping() =~= with_overrides(mapping_of(found@.take(0)), envs@));
    }
    while j < found.len()
        invariant
            j <= found@.len(),
            found.wf(),
            selection.wf(),
            selection.mapping() == with_overrides(mapping_of(found@.take(j as int)), envs@),
        decreases found@.len() - j,
    {
        let entry = found.get(j);
        let ghost before = selection.mapping();
        selection.insert(
            Selected { ordinal: entry.ordinal, name: entry.name.clone(), envs: envs.copy() },
        );
        proof {
            lemma_mapping_take(found@, j as int);
            assert(selection.mapping() =~= with_overrides(
                mapping_of(found@.take(j + 1)),
                envs@,
            ));
        }
        j += 1;
    }
    proof {
        assert(found@.take(found@.len() as int) =~= found@);
    }
    Ok(selection)
}

/// Resolves the tokens, each with its environment assignments, against an
/// index.
pub fn resolve_tokens_env(args: &Vec<String>, index: &PlaybookIndex) -> (r: Result<
    Selection,
    PlaybookError,
>)
    ensures
        match r {
            Ok(selection) => selection.wf() && resolve_env_in(texts(args@), index@) == Ok::<
                Map<u64, (Seq<char>, Pairs)>,
                ErrorView,
            >(selection.mapping()),
            Err(e) => resolve_env_in(texts(args@), index@) == Err::<
                Map<u64, (Seq<char>, Pairs)>,
                ErrorView,
            >(e@),
        },
{
    let ghost tokens = texts(args@);
    let mut selection = Selection::new();
    let mut i: usize = 0;
    proof {
        assert(tokens.take(0) =~= Seq::<Seq<char>>::empty());
        assert(selection.mapping() =~= Map::<u64, (Seq<char>, Pairs)>::empty());
    }
    while i < args.len()
        invariant
            i <= args.len(),
            tokens == texts(args@),
            selection.wf(),
            resolve_env_in(tokens.take(i as int), index@) == Ok::<
                Map<u64, (Seq<char>, Pairs)>,
                ErrorView,
            >(selection.mapping()),
        decreases args.len() - i,
    {
        proof {
            assert(tokens.take(i + 1).drop_last() =~= tokens.take(i as int));
            assert(tokens.take(i + 1).last() == args@[i as int]@);
        }
        match resolve_entry(args[i].as_str(), index) {
            Err(e) => {
                proof {
                    lemma_resolve_env_fail(tokens, index@, i + 1);
                }
                return Err(e);
            },
            Ok(entry) => {
                selection.absorb(&entry);
            },
        }
        i += 1;
    }
    proof {
        assert(tokens.take(args.len() as int) =~= tokens);
    }
    Ok(selection)
}

/// Resolves the tokens in `dir`, each with the environment overrides that
/// follow its reference as comma-separated `KEY=VALUE` segments.
pub fn arg_parse_env(args: &Vec<String>, dir: &Directory) -> (r: Result<Selection, PlaybookError>)
    ensures
        match r {
            Ok(selection) => selection.wf() && resolve_with_env(texts(args@), *dir) == Ok::<
                Map<u64, (Seq<char>, Pairs)>,
                ErrorView,
            >(selection.mapping()),
            Err(e) => resolve_with_env(texts(args@), *dir) == Err::<
                Map<u64, (Seq<char>, Pairs)>,
                ErrorView,
            >(e@),
        },
{
    match map_files(dir) {
        Err(e) => Err(e),
        Ok(index) => resolve_tokens_env(args, &index),
    }
}

/// Where no token misses a name or an ordinal, none of them does.
proof fn lemma_nothing_missing(tokens: Seq<Seq<char>>, index: Seq<Seq<char>>, i: int)
    requires
        0 <= i < tokens.len(),
    ensures
        first_missing_name(tokens, index) is None ==> missing_name(
            reference_of(tokens[i]),
            index,
        ) is None,
        first_missing_ordinal(tokens, index) is None ==> missing_ordinal(
            reference_of(tokens[i]),
            index,
        ) is None,
    decreases tokens.len(),
{
    if i > 0 {
        lemma_nothing_missing(tokens.drop_first(), index, i - 1);
        assert(tokens.drop_first()[i - 1] == tokens[i]);
    }
}

/// Every ordinal of a resolved selection is an ordinal of the index, and
/// stands with the file name that the index has under it.
pub proof fn lemma_resolved_in_index(tokens: Seq<Seq<char>>, index: Seq<Seq<char>>, k: u64)
    requires
        resolve_in(tokens, index) is Ok,
        resolve_in(tokens, index)->Ok_0.dom().contains(k),
    ensures
        k < index.len(),
        resolve_in(tokens, index)->Ok_0[k] == (index[k as int], Pairs::empty()),
{
    let i = choose|i: int| token_picks(tokens, index, i, k);
    lemma_nothing_missing(tokens, index, i);
    match reference_of(tokens[i]) {
        ReferenceView::Name(n) => {
            lemma_position_of(index, n);
        },
        _ => {},
    }
}

/// A range within the index resolves to the ordinals from its start to its
/// end, each with the file name that the index has under it.
pub proof fn lemma_range_resolves(token: Seq<char>, index: Seq<Seq<char>>, a: u64, b: u64)
    requires
        reference_of(token) == ReferenceView::Range(a, b),
        b < index.len(),
    ensures
        resolve_in(seq![token], index) == Ok::<Map<u64, (Seq<char>, Pairs)>, ErrorView>(
            Map::new(|k: u64| a <= k <= b, |k: u64| (index[k as int], Pairs::empty())),
        ),
{
    let tokens = seq![token];
    assert(tokens[0] == token && tokens.drop_first().len() == 0);
    assert(first_missing_name(tokens.drop_first(), index) is None);
    assert(first_missing_ordinal(tokens.drop_first(), index) is None);
    assert(first_missing_name(tokens, index) is None);
    assert(first_missing_ordinal(tokens, index) is None);
    assert forall|k: u64| selects(tokens, index, k) <==> a <= k <= b by {
        if selects(tokens, index, k) {
            let i = choose|i: int| token_picks(tokens, index, i, k);
            assert(tokens[i] == token);
        }
        if a <= k <= b {
            assert(token_picks(tokens, index, 0, k));
        }
    }
    assert(resolve_in(tokens, index)->Ok_0 =~= Map::new(
        |k: u64| a <= k <= b,
        |k: u64| (index[k as int], Pairs::empty()),
    ));
}

/// An index beyond the index fails with that ordinal.
pub proof fn lemma_index_beyond_fails(token: Seq<char>, index: Seq<Seq<char>>, k: u64)
    requires
        reference_of(token) == ReferenceView::Index(k),
        k >= index.len(),
    ensures
        resolve_in(seq![token], index) == Err::<Map<u64, (Seq<char>, Pairs)>, ErrorView>(
            ErrorView::OrdinalNotFound(k),
        ),
{
    let tokens = seq![token];
    assert(tokens[0] == token && tokens.drop_first().len() == 0);
    assert(first_missing_name(tokens.drop_first(), index) is None);
    assert(first_missing_name(tokens, index) is None);
}

/// The assignments of a token's segments never give one key twice.
pub proof fn lemma_assignments_distinct(base: Pairs, segments: Seq<Seq<char>>)
    requires
        distinct_keys(base),
        assignments(base, segments) is Ok,
    ensures
        distinct_keys(assignments(base, segments)->Ok_0),
    decreases segments.len(),
{
    if segments.len() > 0 {
        lemma_assignments_distinct(base, segments.drop_last());
        let pairs = assignments(base, segments.drop_last())->Ok_0;
        let kv = assignment(segments.last())->Some_0;
        lemma_upsert(pairs, kv.0, kv.1, kv.0);
    }
}

/// Every ordinal that one token resolves to is an ordinal of the index,
/// stands with the file name that the index has under it, and has no key
/// twice among its overrides.
pub proof fn lemma_entry_in_index(token: Seq<char>, index: Seq<Seq<char>>, k: u64)
    requires
        token_entry(token, index) is Ok,
        token_entry(token, index)->Ok_0.dom().contains(k),
    ensures
        k < index.len(),
        token_entry(token, index)->Ok_0[k].0 == index[k as int],
        distinct_keys(token_entry(token, index)->Ok_0[k].1),
{
    let segments = split(token, ',');
    if segments.len() == 1 {
        lemma_resolved_in_index(seq![token], index, k);
    } else {
        lemma_resolved_in_index(seq![segments[0]], index, k);
        lemma_assignments_distinct(Pairs::empty(), segments.skip(1));
    }
}

/// Every ordinal of a selection resolved with environment assignments is an
/// ordinal of the index, stands with the file name that the index has under
/// it, and has no key twice among its overrides.
pub proof fn lemma_resolved_env_in_index(tokens: Seq<Seq<char>>, index: Seq<Seq<char>>, k: u64)
    requires
        resolve_env_in(tokens, index) is Ok,
        resolve_env_in(tokens, index)->Ok_0.dom().contains(k),
    ensures
        k < index.len(),
        resolve_env_in(tokens, index)->Ok_0[k].0 == index[k as int],
        distinct_keys(resolve_env_in(tokens, index)->Ok_0[k].1),
    decreases tokens.len(),
{
    if tokens.len() > 0 {
        let t = token_entry(tokens.last(), index)->Ok_0;
        if t.dom().contains(k) {
            lemma_entry_in_index(tokens.last(), index, k);
        } else {
            lemma_resolved_env_in_index(tokens.drop_last(), index, k);
        }
    }
}

/// A selected playbook after the assignments that the environment lists
/// for it: those of the variable named as the playbook's file is, if there
/// is one, made on top of the overrides that the playbook has. Where both
/// give a key, the value of the environment stays.
pub open spec fn ambient_entry(entry: SelectedView, environment: Pairs) -> Result<
    SelectedView,
    ErrorView,
> {
    match value_of(environment, entry.name) {
        None => Ok(entry),
        Some(listed) => match assignments(entry.envs, split(listed, ',')) {
            Err(e) => Err(e),
            Ok(envs) => Ok(SelectedView { envs, ..entry }),
        },
    }
}

/// The selected playbooks after the assignments that the environment lists
/// for each. The first playbook whose variable is malformed fails the
/// whole.
pub open spec fn ambient_applied(entries: Seq<SelectedView>, environment: Pairs) -> Result<
    Seq<SelectedView>,
    ErrorView,
>
    decreases entries.len(),
{
    if entries.len() == 0 {
        Ok(Seq::empty())
    } else {
        match ambient_applied(entries.drop_last(), environment) {
            Err(e) => Err(e),
            Ok(done) => match ambient_entry(entries.last(), environment) {
                Err(e) => Err(e),
                Ok(entry) => Ok(done.push(entry)),
            },
        }
    }
}

/// Once the first playbooks have failed, all of them fail the same way.
proof fn lemma_ambient_fail(entries: Seq<SelectedView>, environment: Pairs, k: int)
    requires
        0 <= k <= entries.len(),
        ambient_applied(entries.take(k), environment) is Err,
    ensures
        ambient_applied(entries, environment) == ambient_applied(entries.take(k), environment),
    decreases entries.len() - k,
{
    if k == entries.len() {
        assert(entries.take(k) =~= entries);
    } else {
        assert(entries.take(k + 1).drop_last() =~= entries.take(k));
        lemma_ambient_fail(entries, environment, k + 1);
    }
}

/// Adds to each selected playbook the overrides that the environment lists
/// for it. `environment` holds the variables of the environment, each name
/// with its value; the variable of a playbook is the one named as its file
/// is, and its value is a list of `KEY=VALUE` assignments, separated by
/// commas.
pub fn with_environment(books: &Selection, environment: &EnvOverride) -> (r: Result<
    Selection,
    PlaybookError,
>)
    requires
        books.wf(),
    ensures
        match r {
            Ok(selection) => selection.wf() && ambient_applied(books@, environment@) == Ok::<
                Seq<SelectedView>,
                ErrorView,
            >(selection@),
            Err(e) => ambient_applied(books@, environment@) == Err::<Seq<SelectedView>, ErrorView>(
                e@,
            ),
        },
{
    let mut selection = Selection::new();
    let mut i: usize = 0;
    proof {
        assert(books@.take(0) =~= Seq::<SelectedView>::empty());
    }
    while i < books.len()
        invariant
            i <= books@.len(),
            books.wf(),
            selection.wf(),
            selection@.len() == i,
            forall|k: int| 0 <= k < i ==> (#[trigger] selection@[k]).ordinal == books@[k].ordinal,
            ambient_applied(books@.take(i as int), environment@) == Ok::<
                Seq<SelectedView>,
                ErrorView,
            >(selection@),
        decreases books@.len() - i,
    {
        proof {
            assert(books@.take(i + 1).drop_last() =~= books@.take(i as int));
            assert(books@.take(i + 1).last() == books@[i as int]);
        }
        let entry = books.get(i);
        let envs = match environment.get(entry.name.as_str()) {
            None => entry.envs.copy(),
            Some(listed) => match merge_assignments(entry.envs.copy(), listed.as_str()) {
                Ok(envs) => envs,
                Err(e) => {
                    proof {
                        lemma_ambient_fail(books@, environment@, i + 1);
                    }
                    return Err(e);
                },
            },
        };
        let item = Selected { ordinal: entry.ordinal, name: entry.name.clone(), envs };
        proof {
            assert forall|k: int| 0 <= k < selection@.len() implies (#[trigger] selection@[k]).ordinal
                < item@.ordinal by {
                assert(books@[k].ordinal < books@[i as int].ordinal);
            }
            lemma_placed_last(selection@, item@);
        }
        selection.insert(item);
        i += 1;
    }
    proof {
        assert(books@.take(books@.len() as int) =~= books@);
    }
    Ok(selection)
}

} // verus!
