//! The describe command: for each selected playbook its whole text, or a
//! summary of its metadata.

use crate::directory::Directory;
use crate::error::{ErrorView, PlaybookError};
use crate::selection::{SelectedView, Selection};
use crate::text::{decimal, decimal_string, join, join_path, joined, joined_path, texts};
use crate::utilities::parse::{contents, contents_of, name_in, unwrap_envs, unwrap_name, vars_in};
use vstd::prelude::*;

verus! {

/// The summary of the playbook `name` under the ordinal `k`, on one line:
/// the two, the declared name and, where there are templated variables,
/// their list.
pub open spec fn summary(k: nat, name: Seq<char>, declared: Seq<char>, vars: Seq<Seq<char>>) -> Seq<
    char,
> {
    let head = decimal(k) + ": "@ + name + " - "@ + declared;
    if vars.len() > 0 {
        head + " Envs: "@ + joined(vars, ", "@) + "\n"@
    } else {
        head + "\n"@
    }
}

/// The whole text of the playbook `name` under the ordinal `k`, below a
/// heading.
pub open spec fn full_text(k: nat, name: Seq<char>, text: Seq<char>) -> Seq<char> {
    decimal(k) + ": "@ + name + "\n===========================\n"@ + text
}

/// What describing one selected playbook of `dir` gives.
pub open spec fn description_of(verbose: bool, book: SelectedView, dir: Directory) -> Result<
    Seq<char>,
    ErrorView,
> {
    let path = joined_path(dir.path@, book.name);
    let source = dir.source_of(book.name);
    if verbose {
        match contents_of(path, source) {
            Err(e) => Err(e),
            Ok(text) => Ok(full_text(book.ordinal as nat, book.name, text)),
        }
    } else {
        match name_in(path, source) {
            Err(e) => Err(e),
            Ok(declared) => match vars_in(path, source) {
                Err(e) => Err(e),
                Ok(vars) => Ok(summary(book.ordinal as nat, book.name, declared, vars)),
            },
        }
    }
}

/// What describing the selected playbooks gives: their descriptions in a
/// row, in the order of their ordinals. The first playbook that cannot be
/// described fails the whole.
pub open spec fn descriptions_of(verbose: bool, books: Seq<SelectedView>, dir: Directory) -> Result<
    Seq<char>,
    ErrorView,
>
    decreases books.len(),
{
    if books.len() == 0 {
        Ok(Seq::empty())
    } else {
        match descriptions_of(verbose, books.drop_last(), dir) {
            Err(e) => Err(e),
            Ok(text) => match description_of(verbose, books.last(), dir) {
                Err(e) => Err(e),
                Ok(d) => Ok(text + d),
            },
        }
    }
}

/// Once the descriptions of the first playbooks have failed, those of all
/// of them fail the same way.
proof fn lemma_descriptions_fail(verbose: bool, books: Seq<SelectedView>, dir: Directory, k: int)
    requires
        0 <= k <= books.len(),
        descriptions_of(verbose, books.take(k), dir) is Err,
    ensures
        descriptions_of(verbose, books, dir) == descriptions_of(verbose, books.take(k), dir),
    decreases books.len() - k,
{
    if k == books.len() {
        assert(books.take(k) =~= books);
    } else {
        assert(books.take(k + 1).drop_last() =~= books.take(k));
        lemma_descriptions_fail(verbose, books, dir, k + 1);
    }
}

/// The summary line of a playbook, from its metadata.
pub fn summary_line(ordinal: u64, name: &str, declared: &str, vars: &Vec<String>) -> (r: String)
    ensures
        r@ == summary(ordinal as nat, name@, declared@, texts(vars@)),
{
    let mut r = decimal_string(ordinal);
    r.append(": ");
    r.append(name);
    r.append(" - ");
    r.append(declared);
    if vars.len() > 0 {
        r.append(" Envs: ");
        r.append(join(vars, ", ").as_str());
    }
    r.append("\n");
    assert(texts(vars@).len() == vars@.len());
    assert(r@ =~= summary(ordinal as nat, name@, declared@, texts(vars@)));
    r
}

/// Describes the selected playbooks of the directory `playbook`.
pub fn call_describe(books: &Selection, verbose: &bool, playbook: &Directory) -> (r: Result<
    String,
    PlaybookError,
>)
    ensures
        match r {
            Ok(text) => descriptions_of(*verbose, books@, *playbook) == Ok::<Seq<char>, ErrorView>(
                text@,
            ),
            Err(e) => descriptions_of(*verbose, books@, *playbook) == Err::<Seq<char>, ErrorView>(
                e@,
            ),
        },
{
    let mut results = String::new();
    let n = books.len();
    let mut i: usize = 0;
    proof {
        assert(books@.take(0) =~= Seq::<SelectedView>::empty());
    }
    while i < n
        invariant
            i <= n,
            n == books@.len(),
            descriptions_of(*verbose, books@.take(i as int), *playbook) == Ok::<
                Seq<char>,
                ErrorView,
            >(results@),
        decreases n - i,
    {
        proof {
            assert(books@.take(i + 1).drop_last() =~= books@.take(i as int));
            assert(books@.take(i + 1).last() == books@[i as int]);
        }
        let book = books.get(i);
        let path = join_path(playbook.path.as_str(), book.name.as_str());
        let source = playbook.find(book.name.as_str());
        let ghost before = results@;
        if *verbose {
            match contents(path.as_str(), &source) {
                Err(e) => {
                    proof {
                        lemma_descriptions_fail(*verbose, books@, *playbook, i + 1);
                    }
                    return Err(e);
                },
                Ok(text) => {
                    results.append(decimal_string(book.ordinal).as_str());
                    results.append(": ");
                    results.append(book.name.as_str());
                    results.append("\n===========================\n");
                    results.append(text.as_str());
                    assert(results@ =~= before + full_text(
                        book.ordinal as nat,
                        book.name@,
                        text@,
                    ));
                },
            }
        } else {
            let declared = match unwrap_name(path.as_str(), &source) {
                Err(e) => {
                    proof {
                        lemma_descriptions_fail(*verbose, books@, *playbook, i + 1);
                    }
                    return Err(e);
                },
                Ok(declared) => declared,
            };
            let vars = match unwrap_envs(path.as_str(), &source) {
                Err(e) => {
                    proof {
                        lemma_descriptions_fail(*verbose, books@, *playbook, i + 1);
                    }
                    return Err(e);
                },
                Ok(vars) => vars,
            };
            let line = summary_line(
                book.ordinal,
                book.name.as_str(),
                declared.as_str(),
                &vars,
            );
            results.append(line.as_str());
        }
        i += 1;
    }
    proof {
        assert(books@.take(n as int) =~= books@);
    }
    Ok(results)
}

} // verus!
