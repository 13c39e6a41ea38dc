//! The list command: one line for each playbook of the index.

use crate::directory::Directory;
use crate::error::{ErrorView, PlaybookError};
use crate::index::PlaybookIndex;
use crate::text::{decimal, decimal_string, join_path, joined_path};
use crate::utilities::parse::{name_in, unwrap_name};
use vstd::prelude::*;

verus! {

/// The line of the playbook `name` under the ordinal `k`: the two, and the
/// declared name where one is given.
pub open spec fn list_line(k: nat, name: Seq<char>, declared: Option<Seq<char>>) -> Seq<char> {
    match declared {
        Some(d) => decimal(k) + ": "@ + name + " - "@ + d + "\n"@,
        None => decimal(k) + ": "@ + name + "\n"@,
    }
}

/// The list of the playbooks `files` of `dir`, in the order of their
/// ordinals. With `verbose` each line also gives the declared name of its
/// playbook, and the first playbook whose name cannot be had fails the
/// whole.
pub open spec fn listing_of(verbose: bool, files: Seq<Seq<char>>, dir: Directory) -> Result<
    Seq<char>,
    ErrorView,
>
    decreases files.len(),
{
    if files.len() == 0 {
        Ok(Seq::empty())
    } else {
        let name = files.last();
        match listing_of(verbose, files.drop_last(), dir) {
            Err(e) => Err(e),
            Ok(text) => if verbose {
                match name_in(joined_path(dir.path@, name), dir.source_of(name)) {
                    Err(e) => Err(e),
                    Ok(d) => Ok(text + list_line((files.len() - 1) as nat, name, Some(d))),
                }
            } else {
                Ok(text + list_line((files.len() - 1) as nat, name, None))
            },
        }
    }
}

/// Once the list of the first playbooks has failed, the whole list fails
/// the same way.
proof fn lemma_listing_fail(verbose: bool, files: Seq<Seq<char>>, dir: Directory, k: int)
    requires
        0 <= k <= files.len(),
        listing_of(verbose, files.take(k), dir) is Err,
    ensures
        listing_of(verbose, files, dir) == listing_of(verbose, files.take(k), dir),
    decreases files.len() - k,
{
    if k == files.len() {
        assert(files.take(k) =~= files);
    } else {
        assert(files.take(k + 1).drop_last() =~= files.take(k));
        lemma_listing_fail(verbose, files, dir, k + 1);
    }
}

/// Lists the playbooks `files` of the directory `playbook`.
pub fn call_list(verbose: &bool, files: &PlaybookIndex, playbook: &Directory) -> (r: Result<
    String,
    PlaybookError,
>)
    ensures
        match r {
            Ok(text) => listing_of(*verbose, files@, *playbook) == Ok::<Seq<char>, ErrorView>(
                text@,
            ),
            Err(e) => listing_of(*verbose, files@, *playbook) == Err::<Seq<char>, ErrorView>(e@),
        },
{
    let mut results = String::new();
    let n = files.len();
    let mut i: usize = 0;
    proof {
        assert(files@.take(0) =~= Seq::<Seq<char>>::empty());
    }
    while i < n
        invariant
            i <= n,
            n == files@.len(),
            listing_of(*verbose, files@.take(i as int), *playbook) == Ok::<Seq<char>, ErrorView>(
                results@,
            ),
        decreases n - i,
    {
        proof {
            assert(files@.take(i + 1).drop_last() =~= files@.take(i as int));
            assert(files@.take(i + 1).last() == files@[i as int]);
        }
        let name = files.get(i);
        let ghost before = results@;
        results.append(decimal_string(i as u64).as_str());
        results.append(": ");
        results.append(name.as_str());
        if *verbose {
            let path = join_path(playbook.path.as_str(), name.as_str());
            let source = playbook.find(name.as_str());
            match unwrap_name(path.as_str(), &source) {
                Err(e) => {
                    proof {
                        lemma_listing_fail(*verbose, files@, *playbook, i + 1);
                    }
                    return Err(e);
                },
                Ok(declared) => {
                    results.append(" - ");
                    results.append(declared.as_str());
                    results.append("\n");
                    assert(results@ =~= before + list_line(i as nat, name@, Some(declared@)));
                },
            }
        } else {
            results.append("\n");
            assert(results@ =~= before + list_line(i as nat, name@, None));
        }
        i += 1;
    }
    proof {
        assert(files@.take(n as int) =~= files@);
    }
    Ok(results)
}

} // verus!
