//! The metadata of a playbook: the name that its first play declares and
//! the variables that the values of that play's `vars` refer to.

use crate::directory::Source;
use crate::error::{ErrorView, PlaybookError};
use crate::text::{chars_of, find_pair, first_pair, lemma_first_pair, texts, trim_bounds, trimmed};
use crate::yaml::{
    as_mapping, member, parse_sequence, parse_value, text_of, values_of, yaml_mapping,
    yaml_member, yaml_sequence, yaml_text, yaml_value, yaml_values,
};
use vstd::prelude::*;

verus! {

/// The failure of a file that could not be opened or read.
pub fn file_not_found(path: &str) -> (r: PlaybookError)
    ensures
        r@ == ErrorView::FileNotReadable(path@),
{
    PlaybookError::FileNotReadable(path.to_owned())
}

/// The failure of a file that does not hold a sequence of plays.
pub fn file_not_parsable(path: &str) -> (r: PlaybookError)
    ensures
        r@ == ErrorView::NotParsable(path@),
{
    PlaybookError::NotParsable(path.to_owned())
}

/// The variable that a value refers to: what stands between the first `{{`
/// and the first `}}` after it, without the white space around it. A value
/// without the first marker, or without the second after the first, refers
/// to none.
pub open spec fn template_of(value: Seq<char>) -> Option<Seq<char>> {
    let open = first_pair(value, '{', 0);
    if open >= value.len() {
        None
    } else {
        let close = first_pair(value, '}', open + 2);
        if close >= value.len() {
            None
        } else {
            Some(trimmed(value.subrange(open + 2, close)))
        }
    }
}

/// The variable that `value` refers to.
pub fn template_var(value: &str) -> (r: Option<String>)
    ensures
        match r {
            Some(name) => template_of(value@) == Some(name@),
            None => template_of(value@) is None,
        },
{
    let chars = chars_of(value);
    let n = chars.len();
    let open = find_pair(&chars, '{', 0);
    proof {
        lemma_first_pair(value@, '{', 0);
    }
    if open >= n {
        return None;
    }
    let close = find_pair(&chars, '}', open + 2);
    proof {
        lemma_first_pair(value@, '}', open + 2);
    }
    if close >= n {
        return None;
    }
    let (a, b) = trim_bounds(&chars, open + 2, close);
    Some(value.substring_char(a, b).to_owned())
}

/// What the library reads of a play.
#[derive(Debug, Clone, PartialEq, Eq)]
pub struct Play {
    /// The `name` of the play, where it has one that is a string.
    pub name: Option<String>,
    /// The values of the play's `vars`, in the order of the mapping, where
    /// the play has `vars` that are a mapping: each value as its string, or
    /// `None` where the value is no string.
    pub vars: Option<Vec<Option<String>>>,
}

/// What the library reads of a play, over sequences of characters.
pub struct PlayView {
    pub name: Option<Seq<char>>,
    pub vars: Option<Seq<Option<Seq<char>>>>,
}

/// The text of an optional string.
pub open spec fn optional_text(s: Option<String>) -> Option<Seq<char>> {
    match s {
        Some(t) => Some(t@),
        None => None,
    }
}

impl View for Play {
    type V = PlayView;

    open spec fn view(&self) -> PlayView {
        PlayView {
            name: optional_text(self.name),
            vars: match self.vars {
                Some(values) => Some(values@.map_values(|v: Option<String>| optional_text(v))),
                None => None,
            },
        }
    }
}

/// The variables that the values refer to, in the order of the values.
/// Values that are no strings, or refer to no variable, are passed over.
pub open spec fn templates_of(values: Seq<Option<Seq<char>>>) -> Seq<Seq<char>>
    decreases values.len(),
{
    if values.len() == 0 {
        Seq::empty()
    } else {
        let rest = templates_of(values.drop_last());
        match values.last() {
            Some(v) => match template_of(v) {
                Some(t) => rest.push(t),
                None => rest,
            },
            None => rest,
        }
    }
}

impl PlayView {
    /// The declared name, or `MissingNameField` for the file at `path`.
    pub open spec fn declared_name(self, path: Seq<char>) -> Result<Seq<char>, ErrorView> {
        match self.name {
            Some(n) => Ok(n),
            None => Err(ErrorView::MissingNameField(path)),
        }
    }

    /// The templated variables; none where the play has no `vars`.
    pub open spec fn templated_vars(self) -> Seq<Seq<char>> {
        match self.vars {
            Some(values) => templates_of(values),
            None => Seq::empty(),
        }
    }
}

/// The name that `play`, the first play of the file at `path`, declares.
pub fn declared_name(play: &Play, path: &str) -> (r: Result<String, PlaybookError>)
    ensures
        match r {
            Ok(name) => play@.declared_name(path@) == Ok::<Seq<char>, ErrorView>(name@),
            Err(e) => play@.declared_name(path@) == Err::<Seq<char>, ErrorView>(e@),
        },
{
    match &play.name {
        Some(name) => Ok(name.clone()),
        None => Err(PlaybookError::MissingNameField(path.to_owned())),
    }
}

/// The variables that the values of the play's `vars` refer to.
pub fn templated_vars(play: &Play) -> (r: Vec<String>)
    ensures
        texts(r@) == play@.templated_vars(),
{
    let mut out: Vec<String> = Vec::new();
    match &play.vars {
        None => {
            assert(texts(out@) =~= Seq::<Seq<char>>::empty());
        },
        Some(values) => {
            let ghost all = values@.map_values(|v: Option<String>| optional_text(v));
            let mut i: usize = 0;
            proof {
                assert(all.take(0) =~= Seq::<Option<Seq<char>>>::empty());
                assert(texts(out@) =~= Seq::<Seq<char>>::empty());
            }
            while i < values.len()
                invariant
                    i <= values.len(),
                    all == values@.map_values(|v: Option<String>| optional_text(v)),
                    texts(out@) == templates_of(all.take(i as int)),
                decreases values.len() - i,
            {
                proof {
                    assert(all.take(i + 1).drop_last() =~= all.take(i as int));
                    assert(all.take(i + 1).last() == optional_text(values@[i as int]));
                }
                match &values[i] {
                    Some(value) => match template_var(value.as_str()) {
                        Some(name) => {
                            proof {
                                assert(texts(out@.push(name)) =~= texts(out@).push(name@));
                            }
                            out.push(name);
                        },
                        None => {},
                    },
                    None => {},
                }
                i += 1;
            }
            proof {
                assert(all.take(values.len() as int) =~= all);
            }
        },
    }
    out
}

/// What the library reads of the play `doc`: its `name`, where that is a
/// string, and the values of its `vars`, where that is a mapping.
pub open spec fn play_of(doc: serde_yaml::Value) -> PlayView {
    PlayView {
        name: match yaml_member(doc, "name"@) {
            Some(v) => yaml_text(v),
            None => None,
        },
        vars: match yaml_member(doc, "vars"@) {
            Some(v) => match yaml_mapping(v) {
                Some(m) => Some(yaml_values(m).map_values(|x: serde_yaml::Value| yaml_text(x))),
                None => None,
            },
            None => None,
        },
    }
}

/// The first play of a playbook with this text: `None` where the text is
/// no YAML sequence, or an empty one.
pub open spec fn first_play(text: Seq<char>) -> Option<PlayView> {
    match yaml_sequence(text) {
        Some(docs) => if docs.len() > 0 {
            Some(play_of(docs[0]))
        } else {
            None
        },
        None => None,
    }
}

/// Reads, of the play `doc`, what the library uses.
pub fn read_play(doc: &serde_yaml::Value) -> (r: Play)
    ensures
        r@ == play_of(*doc),
{
    let name = match member(doc, "name") {
        Some(v) => match text_of(v) {
            Some(t) => Some(t.to_owned()),
            None => None,
        },
        None => None,
    };
    let vars = match member(doc, "vars") {
        Some(v) => match as_mapping(v) {
            Some(m) => {
                let values = values_of(m);
                let mut out: Vec<Option<String>> = Vec::new();
                let mut i: usize = 0;
                while i < values.len()
                    invariant
                        i <= values.len(),
                        out.len() == i,
                        values@.len() == yaml_values(*m).len(),
                        forall|k: int|
                            0 <= k < values@.len() ==> *(#[trigger] values@[k]) == yaml_values(
                                *m,
                            )[k],
                        forall|k: int|
                            0 <= k < i ==> optional_text(#[trigger] out@[k]) == yaml_text(
                                yaml_values(*m)[k],
                            ),
                    decreases values.len() - i,
                {
                    let item = match text_of(values[i]) {
                        Some(t) => Some(t.to_owned()),
                        None => None,
                    };
                    out.push(item);
                    i += 1;
                }
                assert(out@.map_values(|v: Option<String>| optional_text(v)) =~= yaml_values(
                    *m,
                ).map_values(|x: serde_yaml::Value| yaml_text(x)));
                Some(out)
            },
            None => None,
        },
        None => None,
    };
    Play { name, vars }
}

/// Reads the first play of a playbook with this text.
pub fn first_play_of(text: &str) -> (r: Option<Play>)
    ensures
        match r {
            Some(play) => first_play(text@) == Some(play@),
            None => first_play(text@) is None,
        },
{
    match parse_sequence(text) {
        Err(_) => None,
        Ok(docs) => if docs.len() > 0 {
            Some(read_play(&docs[0]))
        } else {
            None
        },
    }
}

/// The text of the file at `path`, where reading it gave `source`.
pub open spec fn contents_of(path: Seq<char>, source: Source) -> Result<Seq<char>, ErrorView> {
    match source {
        Source::Text(t) => Ok(t@),
        _ => Err(ErrorView::FileNotReadable(path)),
    }
}

/// The first play of the file at `path`, where reading it gave `source`. A
/// file that could not be opened is not readable; one that holds no text,
/// no YAML sequence or an empty one is not parsable.
pub open spec fn play_in(path: Seq<char>, source: Source) -> Result<PlayView, ErrorView> {
    match source {
        Source::Unavailable => Err(ErrorView::FileNotReadable(path)),
        Source::Garbled => Err(ErrorView::NotParsable(path)),
        Source::Text(t) => match first_play(t@) {
            Some(play) => Ok(play),
            None => Err(ErrorView::NotParsable(path)),
        },
    }
}

/// The declared name of the playbook at `path`.
pub open spec fn name_in(path: Seq<char>, source: Source) -> Result<Seq<char>, ErrorView> {
    match play_in(path, source) {
        Ok(play) => play.declared_name(path),
        Err(e) => Err(e),
    }
}

/// The templated variables of the playbook at `path`.
pub open spec fn vars_in(path: Seq<char>, source: Source) -> Result<Seq<Seq<char>>, ErrorView> {
    match play_in(path, source) {
        Ok(play) => Ok(play.templated_vars()),
        Err(e) => Err(e),
    }
}

/// The YAML value of the file at `path`.
pub open spec fn value_in(path: Seq<char>, source: Source) -> Result<
    serde_yaml::Value,
    ErrorView,
> {
    match source {
        Source::Text(t) => match yaml_value(t@) {
            Some(v) => Ok(v),
            None => Err(ErrorView::NotParsable(path)),
        },
        _ => Err(ErrorView::FileNotReadable(path)),
    }
}

/// The whole text of the file at `path`, as it was read.
pub fn contents(path: &str, source: &Source) -> (r: Result<String, PlaybookError>)
    ensures
        match r {
            Ok(text) => contents_of(path@, *source) == Ok::<Seq<char>, ErrorView>(text@),
            Err(e) => contents_of(path@, *source) == Err::<Seq<char>, ErrorView>(e@),
        },
{
    match source {
        Source::Text(t) => Ok(t.clone()),
        _ => Err(file_not_found(path)),
    }
}

/// The file at `path` as one YAML value.
pub fn unwrap(path: &str, source: &Source) -> (r: Result<serde_yaml::Value, PlaybookError>)
    ensures
        match r {
            Ok(value) => value_in(path@, *source) == Ok::<serde_yaml::Value, ErrorView>(value),
            Err(e) => value_in(path@, *source) == Err::<serde_yaml::Value, ErrorView>(e@),
        },
{
    match source {
        Source::Text(t) => match parse_value(t.as_str()) {
            Ok(value) => Ok(value),
            Err(_) => Err(file_not_parsable(path)),
        },
        _ => Err(file_not_found(path)),
    }
}

/// The first play of the file at `path`.
pub fn unwrap_play(path: &str, source: &Source) -> (r: Result<Play, PlaybookError>)
    ensures
        match r {
            Ok(play) => play_in(path@, *source) == Ok::<PlayView, ErrorView>(play@),
            Err(e) => play_in(path@, *source) == Err::<PlayView, ErrorView>(e@),
        },
{
    match source {
        Source::Unavailable => Err(file_not_found(path)),
        Source::Garbled => Err(file_not_parsable(path)),
        Source::Text(t) => match first_play_of(t.as_str()) {
            Some(play) => Ok(play),
            None => Err(file_not_parsable(path)),
        },
    }
}

/// The name that the first play of the file at `path` declares.
pub fn unwrap_name(path: &str, source: &Source) -> (r: Result<String, PlaybookError>)
    ensures
        match r {
            Ok(name) => name_in(path@, *source) == Ok::<Seq<char>, ErrorView>(name@),
            Err(e) => name_in(path@, *source) == Err::<Seq<char>, ErrorView>(e@),
        },
{
    match unwrap_play(path, source) {
        Ok(play) => declared_name(&play, path),
        Err(e) => Err(e),
    }
}

/// The variables that the `vars` of the first play of the file at `path`
/// refer to, in the order in which the play lists them.
pub fn unwrap_envs(path: &str, source: &Source) -> (r: Result<Vec<String>, PlaybookError>)
    ensures
        match r {
            Ok(vars) => vars_in(path@, *source) == Ok::<Seq<Seq<char>>, ErrorView>(texts(vars@)),
            Err(e) => vars_in(path@, *source) == Err::<Seq<Seq<char>>, ErrorView>(e@),
        },
{
    match unwrap_play(path, source) {
        Ok(play) => Ok(templated_vars(&play)),
        Err(e) => Err(e),
    }
}

} // verus!
