//! Regular expressions with a fixed number of groups, on top of the `regex` crate.
use regex::Regex;
use vstd::prelude::*;

verus! {

/// A compiled regular expression of the `regex` crate.
#[verifier::external_type_specification]
#[verifier::external_body]
pub struct ExRegex(regex::Regex);

/// The reason why the `regex` crate rejects a pattern.
#[verifier::external_type_specification]
#[verifier::external_body]
pub struct ExRegexError(regex::Error);

/// The text that a regular expression was compiled from. Of one that was built with options of its
/// own nothing is said but that it has such a text, which then stands for the options too.
pub uninterp spec fn regex_source(re: regex::Regex) -> Seq<char>;

/// The number of groups that take part in every match of a pattern, with the whole match as one of
/// them; none if the number varies.
pub uninterp spec fn regex_static_groups(source: Seq<char>) -> Option<usize>;

/// The texts of the groups of the leftmost match of a pattern in a text, without the whole match.
pub uninterp spec fn regex_groups(source: Seq<char>, text: Seq<char>) -> Option<Seq<Seq<char>>>;

/// The characters of each of some texts.
pub open spec fn texts(v: Seq<String>) -> Seq<Seq<char>> {
    Seq::new(v.len(), |i: int| v[i]@)
}

/// `regex::Regex::new`. Claimed: an expression that comes back was compiled from the text given.
/// Left unsaid is which texts it accepts: that is decided by the grammar of the crate and by a limit
/// on the bytes of the compiled form, and how many bytes a state takes depends on the machine.
#[verifier::external_body]
fn compile(source: &str) -> (r: Result<Regex, regex::Error>)
    ensures
        r matches Ok(re) ==> regex_source(re) == source@,
{
    Regex::new(source)
}

/// `regex::Regex::static_captures_len`. Claimed: the result is determined by the text that the
/// expression was compiled from, and the whole match is counted.
#[verifier::external_body]
fn static_groups(re: &Regex) -> (r: Option<usize>)
    ensures
        r == regex_static_groups(regex_source(*re)),
        r matches Some(n) ==> n >= 1,
{
    re.static_captures_len()
}

/// `regex::Regex::captures`, with the groups taken by `regex::Captures::extract`, which panics
/// unless the number of groups is fixed and is the one asked for. Claimed: whether there is a
/// match, and the texts of its groups, are determined by the text that the expression was compiled
/// from and the text searched, and a match has the number of groups asked for.
#[verifier::external_body]
fn match_groups<const N: usize>(re: &Regex, text: &str) -> (r: Option<Vec<String>>)
    requires
        regex_static_groups(regex_source(*re)) == Some((N + 1) as usize),
        N < usize::MAX,
    ensures
        match r {
            Some(v) => v@.len() == N && regex_groups(regex_source(*re), text@) == Some(texts(v@)),
            None => regex_groups(regex_source(*re), text@) is None,
        },
{
    re.captures(text).map(|c| c.extract::<N>().1.iter().map(|g| g.to_string()).collect())
}

/// A pattern of which every match has `N` groups.
pub struct Pattern<const N: usize> {
    regex: Regex,
}

impl<const N: usize> Pattern<N> {
    /// The text of the pattern.
    pub closed spec fn source(self) -> Seq<char> {
        regex_source(self.regex)
    }

    #[verifier::type_invariant]
    closed spec fn wf(self) -> bool {
        N < usize::MAX && regex_static_groups(regex_source(self.regex)) == Some((N + 1) as usize)
    }

    /// Compiles a pattern; none if it is not accepted or a match need not have `N` groups.
    pub fn new(source: &str) -> (r: Option<Pattern<N>>)
        ensures
            r matches Some(p) ==> p.source() == source@ && N < usize::MAX && regex_static_groups(
                source@,
            ) == Some((N + 1) as usize),
            N == usize::MAX ==> r is None,
    {
        Pattern::of_compiled(compile(source))
    }

    /// The pattern of a compiled expression, which there is if and only if every match has `N`
    /// groups.
    pub fn of_compiled(compiled: Result<Regex, regex::Error>) -> (r: Option<Pattern<N>>)
        ensures
            r is Some <==> (compiled matches Ok(re) && N < usize::MAX && regex_static_groups(
                regex_source(re),
            ) == Some((N + 1) as usize)),
            r matches Some(p) ==> (compiled matches Ok(re) && p.source() == regex_source(re)),
    {
        match compiled {
            Err(_) => None,
            Ok(regex) => match static_groups(&regex) {
                None => None,
                Some(n) => if n - 1 == N {
                    Some(Pattern { regex })
                } else {
                    None
                },
            },
        }
    }

    /// The groups of the leftmost match in a text.
    pub fn groups(&self, text: &str) -> (r: Option<Vec<String>>)
        ensures
            match r {
                Some(v) => v@.len() == N && regex_groups(self.source(), text@) == Some(texts(v@)),
                None => regex_groups(self.source(), text@) is None,
            },
    {
        proof {
            use_type_invariant(self);
        }
        match_groups::<N>(&self.regex, text)
    }
}

/// Law: the texts of some strings are those of them all, in their places.
pub proof fn law_texts(v: Seq<String>, i: int)
    requires
        0 <= i < v.len(),
    ensures
        texts(v).len() == v.len(),
        texts(v)[i] == v[i]@,
{
}

} // verus!
