//! PyPI.

use vstd::prelude::*;

use crate::adapters::lang::crates_io::{keep_unless_blank, unless_blank};
use crate::error::{Error, ErrorKind, ErrorView, failure, outcome};
use crate::matching::{lemma_pypi_form_prefix, pypi_form};
use crate::text::{
    ascii_alphanumeric_char, ascii_lower, ascii_lower_char, cat3, chars_of, is_ascii_alphanumeric,
    lower, option_view,
};

verus! {

/// A distribution as PyPI tells of it.
#[derive(Debug)]
pub struct PypiPackage {
    pub name: String,
    pub version: String,
    pub summary: Option<String>,
}

#[verifier::ext_equal]
pub struct PypiView {
    pub name: Seq<char>,
    pub version: Seq<char>,
    pub summary: Option<Seq<char>>,
}

impl View for PypiPackage {
    type V = PypiView;

    open spec fn view(&self) -> PypiView {
        PypiView {
            name: self.name@,
            version: self.version@,
            summary: option_view(self.summary),
        }
    }
}

/// The canonical name of the distribution that a query names, if it names one.
pub open spec fn canonical_name(query: Seq<char>) -> Result<Seq<char>, ErrorView> {
    match pypi_form(query) {
        Some((form, _)) if query.len() > 0 => Ok(form),
        _ => Err(
            failure(
                ErrorKind::InvalidName,
                "Python prototype search accepts only an exact distribution name"@,
            ),
        ),
    }
}

pub fn normalize_name(query: &str) -> (r: Result<String, Error>)
    ensures
        outcome(r) == canonical_name(query@),
{
    let chars = chars_of(query);
    let n: usize = chars.len();
    if n == 0 {
        return Err(
            Error::new(
                ErrorKind::InvalidName,
                "Python prototype search accepts only an exact distribution name",
            ),
        );
    }
    let mut normalized = String::new();
    let mut separator = false;
    assert(normalized@ =~= Seq::<char>::empty());
    for i in 0..n
        invariant
            n == chars@.len(),
            n > 0,
            chars@ == query@,
            pypi_form(query@.take(i as int)) == Some((normalized@, separator)),
    {
        let c = chars[i];
        proof {
            assert(query@.take(i + 1).drop_last() =~= query@.take(i as int));
            assert(query@.take(i + 1).last() == c);
        }
        if c == '-' || c == '_' || c == '.' {
            if !separator {
                normalized.push('-');
                separator = true;
            }
        } else if ascii_alphanumeric_char(c) {
            normalized.push(ascii_lower_char(c));
            separator = false;
        } else {
            proof {
                lemma_pypi_form_prefix(query@, i + 1);
            }
            return Err(
                Error::new(
                    ErrorKind::InvalidName,
                    "Python prototype search accepts only an exact distribution name",
                ),
            );
        }
    }
    assert(query@.take(n as int) =~= query@);
    Ok(normalized)
}

/// Where PyPI tells of the distribution with this canonical name.
pub open spec fn lookup_address(name: Seq<char>) -> Seq<char> {
    "https://pypi.org/pypi/"@ + name + "/json"@
}

pub fn lookup_url(name: &str) -> (r: String)
    ensures
        r@ == lookup_address(name@),
{
    cat3("https://pypi.org/pypi/", name, "/json")
}

/// The distribution that a response tells of.
pub fn exact_lookup(name: String, version: String, summary: &Option<String>) -> (r: PypiPackage)
    ensures
        r@ == (PypiView {
            name: name@,
            version: version@,
            summary: unless_blank(option_view(*summary)),
        }),
{
    PypiPackage { name, version, summary: keep_unless_blank(summary) }
}

/// A canonical name is its own canonical name.
pub proof fn law_canonical_name_is_stable(query: Seq<char>)
    ensures
        canonical_name(query) matches Ok(name) ==> canonical_name(name) == Ok::<
            Seq<char>,
            ErrorView,
        >(name),
{
    lemma_form_stable(query);
}

proof fn lemma_form_stable(s: Seq<char>)
    ensures
        pypi_form(s) matches Some((form, separated)) ==> pypi_form(form) == Some((form, separated))
            && (s.len() > 0 || separated ==> form.len() > 0),
    decreases s.len(),
{
    if s.len() > 0 {
        lemma_form_stable(s.drop_last());
        match pypi_form(s) {
            Some((form, separated)) => {
                let (before, was) = pypi_form(s.drop_last())->0;
                if form.len() > before.len() {
                    assert(form.drop_last() =~= before);
                }
            },
            None => {},
        }
    }
}

/// The canonical name of a distribution has small letters, and one hyphen for each run
/// of hyphens, underscores and dots.
pub proof fn law_canonical_name(name: Seq<char>, separators: Seq<char>, rest: Seq<char>)
    requires
        canonical_name(name) is Ok,
        is_ascii_alphanumeric(name.last()),
        separators.len() > 0,
        forall|i: int|
            0 <= i < separators.len() ==> (#[trigger] separators[i] == '-' || separators[i] == '_'
                || separators[i] == '.'),
        forall|i: int| 0 <= i < rest.len() ==> is_ascii_alphanumeric(#[trigger] rest[i]),
    ensures
        rest.len() > 0 ==> canonical_name(rest) == Ok::<Seq<char>, ErrorView>(lower(rest)),
        canonical_name(name + rest) == Ok::<Seq<char>, ErrorView>(
            canonical_name(name)->Ok_0 + lower(rest),
        ),
        canonical_name(name + separators + rest) == Ok::<Seq<char>, ErrorView>(
            canonical_name(name)->Ok_0 + seq!['-'] + lower(rest),
        ),
{
    lemma_letters_follow(Seq::empty(), rest);
    assert(Seq::<char>::empty() + rest =~= rest);
    assert(Seq::<char>::empty() + lower(rest) =~= lower(rest));
    lemma_letters_follow(name, rest);
    lemma_separators_follow(name, separators);
    lemma_letters_follow(name + separators, rest);
}

/// A query that holds anything but letters and digits of ASCII, hyphens, underscores
/// and dots names no distribution, and neither does an empty one.
pub proof fn law_other_characters_name_nothing(query: Seq<char>, i: int)
    requires
        query.len() == 0 || (0 <= i < query.len() && !is_ascii_alphanumeric(query[i]) && query[i]
            != '-' && query[i] != '_' && query[i] != '.'),
    ensures
        canonical_name(query) matches Err(e) && e.kind == ErrorKind::InvalidName,
    decreases query.len(),
{
    if query.len() > 0 && i < query.len() - 1 {
        assert(query.drop_last()[i] == query[i]);
        law_other_characters_name_nothing(query.drop_last(), i);
        if query.drop_last().len() > 0 {
            assert(pypi_form(query.drop_last()) is None);
        }
    }
}

spec fn form(s: Seq<char>) -> Seq<char> {
    match pypi_form(s) {
        Some((form, _)) => form,
        None => Seq::empty(),
    }
}

spec fn separated(s: Seq<char>) -> bool {
    match pypi_form(s) {
        Some((_, separated)) => separated,
        None => false,
    }
}

proof fn lemma_letters_follow(name: Seq<char>, rest: Seq<char>)
    requires
        pypi_form(name) is Some,
        forall|i: int| 0 <= i < rest.len() ==> is_ascii_alphanumeric(#[trigger] rest[i]),
    ensures
        pypi_form(name + rest) matches Some((whole, open)) && whole == form(name)
            + lower(rest) && (rest.len() > 0 ==> !open) && (rest.len() == 0 ==> open == separated(name)),
    decreases rest.len(),
{
    if rest.len() == 0 {
        assert(name + rest =~= name);
        assert(form(name) + lower(rest) =~= form(name));
    } else {
        let front = rest.drop_last();
        assert forall|i: int| 0 <= i < front.len() implies is_ascii_alphanumeric(
            #[trigger] front[i],
        ) by {
            assert(front[i] == rest[i]);
        }
        lemma_letters_follow(name, front);
        assert((name + rest).drop_last() =~= name + front);
        assert(is_ascii_alphanumeric(rest[rest.len() - 1]));
        assert(form(name) + lower(rest) =~= (form(name) + lower(front)).push(
            ascii_lower(rest.last()),
        ));
    }
}

proof fn lemma_separators_follow(name: Seq<char>, separators: Seq<char>)
    requires
        pypi_form(name) matches Some((_, separated)) && !separated,
        separators.len() > 0,
        forall|i: int|
            0 <= i < separators.len() ==> (#[trigger] separators[i] == '-' || separators[i] == '_'
                || separators[i] == '.'),
    ensures
        pypi_form(name + separators) == Some((form(name).push('-'), true)),
        form(name).push('-') == form(name) + seq!['-'],
    decreases separators.len(),
{
    let front = separators.drop_last();
    assert((name + separators).drop_last() =~= name + front);
    assert((name + separators).last() == separators[separators.len() - 1]);
    if front.len() > 0 {
        lemma_separators_follow(name, front);
    } else {
        assert(name + front =~= name);
    }
    assert(form(name).push('-') =~= form(name) + seq!['-']);
}

/// PyPI is asked for the distribution of a canonical name under the JSON address of it.
pub proof fn law_lookup_names_the_distribution(name: Seq<char>)
    ensures
        lookup_address(name) == "https://pypi.org/pypi/"@ + name + "/json"@,
{
}

} // verus!
