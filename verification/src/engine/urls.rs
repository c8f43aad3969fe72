//! URLs, held as their serialised text.

use crate::text;
use vstd::prelude::*;

verus! {

/// What `url::Url::parse` makes of a string: the serialised URL, or the text of
/// the parse error.
pub uninterp spec fn parsed_url(input: Seq<char>) -> Result<Seq<char>, Seq<char>>;

/// `url::Url::parse`: reads an absolute URL and gives back its serialisation
/// (`Url::as_str`), or what the error says. The result is a function of the
/// input alone.
#[verifier::external_body]
pub(crate) fn parse_url(input: &str) -> (r: Result<String, String>)
    ensures
        match r {
            Ok(url) => parsed_url(input@) == Ok::<Seq<char>, Seq<char>>(url@),
            Err(message) => parsed_url(input@) == Err::<Seq<char>, Seq<char>>(message@),
        },
{
    match url::Url::parse(input) {
        Ok(parsed) => Ok(parsed.as_str().to_string()),
        Err(e) => Err(e.to_string()),
    }
}

/// What reading several results gives: all values, or the first error.
pub open spec fn all_or_first(results: Seq<Result<Seq<char>, Seq<char>>>) -> Result<
    Seq<Seq<char>>,
    Seq<char>,
>
    decreases results.len(),
{
    if results.len() == 0 {
        Ok(Seq::empty())
    } else {
        match all_or_first(results.drop_last()) {
            Err(e) => Err(e),
            Ok(values) => match results.last() {
                Ok(value) => Ok(values.push(value)),
                Err(e) => Err(e),
            },
        }
    }
}

/// A result, with its text in view.
pub open spec fn result_view(r: Result<String, String>) -> Result<Seq<char>, Seq<char>> {
    match r {
        Ok(value) => Ok(value@),
        Err(e) => Err(e@),
    }
}

/// Each result, with its text in view.
pub open spec fn each_result(results: Seq<Result<String, String>>) -> Seq<
    Result<Seq<char>, Seq<char>>,
> {
    results.map_values(|r: Result<String, String>| result_view(r))
}

proof fn lemma_first_error(results: Seq<Result<Seq<char>, Seq<char>>>, n: int)
    requires
        0 <= n <= results.len(),
        all_or_first(results.take(n)) is Err,
    ensures
        all_or_first(results) == all_or_first(results.take(n)),
    decreases results.len(),
{
    if n < results.len() {
        assert(results.drop_last().take(n) =~= results.take(n));
        lemma_first_error(results.drop_last(), n);
    } else {
        assert(results.take(n) =~= results);
    }
}

/// All values, or the first error.
pub fn collect_urls(results: Vec<Result<String, String>>) -> (r: Result<Vec<String>, String>)
    ensures
        match r {
            Ok(values) => all_or_first(each_result(results@)) == Ok::<Seq<Seq<char>>, Seq<char>>(
                text::each(values@),
            ),
            Err(e) => all_or_first(each_result(results@)) == Err::<Seq<Seq<char>>, Seq<char>>(e@),
        },
{
    let ghost all = each_result(results@);
    let mut values: Vec<String> = Vec::new();
    let mut i: usize = 0;
    assert(text::each(values@) =~= Seq::<Seq<char>>::empty());
    while i < results.len()
        invariant
            i <= results@.len(),
            all == each_result(results@),
            all_or_first(all.take(i as int)) == Ok::<Seq<Seq<char>>, Seq<char>>(
                text::each(values@),
            ),
        decreases results@.len() - i,
    {
        assert(all.take(i + 1).drop_last() =~= all.take(i as int));
        assert(all[i as int] == result_view(results@[i as int]));
        let ghost so_far = values@;
        match &results[i] {
            Ok(value) => {
                values.push(value.clone());
                assert(text::each(values@) =~= text::each(so_far).push(value@));
            },
            Err(e) => {
                proof {
                    lemma_first_error(all, i + 1);
                }
                return Err(e.clone());
            },
        }
        i += 1;
    }
    assert(all.take(i as int) =~= all);
    Ok(values)
}

/// What each input parses to.
pub open spec fn each_parsed(inputs: Seq<Seq<char>>) -> Seq<Result<Seq<char>, Seq<char>>> {
    inputs.map_values(|input: Seq<char>| parsed_url(input))
}

/// Parse several URLs: all of them, or the first error.
pub fn parse_all(inputs: &Vec<String>) -> (r: Result<Vec<String>, String>)
    ensures
        match r {
            Ok(values) => all_or_first(each_parsed(text::each(inputs@))) == Ok::<
                Seq<Seq<char>>,
                Seq<char>,
            >(text::each(values@)),
            Err(e) => all_or_first(each_parsed(text::each(inputs@))) == Err::<
                Seq<Seq<char>>,
                Seq<char>,
            >(e@),
        },
{
    let mut results: Vec<Result<String, String>> = Vec::new();
    let mut i: usize = 0;
    while i < inputs.len()
        invariant
            i <= inputs@.len(),
            results@.len() == i,
            forall|k: int|
                0 <= k < i ==> result_view(#[trigger] results@[k]) == parsed_url(inputs@[k]@),
        decreases inputs@.len() - i,
    {
        results.push(parse_url(inputs[i].as_str()));
        i += 1;
    }
    assert(each_result(results@) =~= each_parsed(text::each(inputs@)));
    collect_urls(results)
}

/// The path segments of a URL as `url::Url::path_segments` gives them; `None`
/// where there are none to give.
pub uninterp spec fn segments_of(url: Seq<char>) -> Option<Seq<Seq<char>>>;

/// `url::Url::path_segments` of the URL with this serialisation: the parts of
/// its path between slashes, `None` for a URL whose path does not begin with a
/// slash (or for text that is no URL). The result is a function of the text
/// alone.
#[verifier::external_body]
pub(crate) fn path_segments(url: &str) -> (r: Option<Vec<String>>)
    ensures
        match r {
            Some(segments) => segments_of(url@) == Some(
                segments@.map_values(|s: String| s@),
            ),
            None => segments_of(url@) is None,
        },
{
    match url::Url::parse(url) {
        Ok(parsed) => parsed.path_segments().map(|parts| parts.map(String::from).collect()),
        Err(_) => None,
    }
}

// ─── Laws ────────────────────────────────────────────────────────────────────

/// Several results are read together: all values, in their order, if every one is there;
/// and otherwise the first error.
pub proof fn the_first_error_counts(results: Seq<Result<Seq<char>, Seq<char>>>)
    ensures
        all_or_first(results) is Ok <==> (forall|i: int|
            0 <= i < results.len() ==> (#[trigger] results[i]) is Ok),
        all_or_first(results) matches Ok(values) ==> {
            &&& values.len() == results.len()
            &&& forall|i: int|
                0 <= i < results.len() ==> #[trigger] results[i] == Ok::<Seq<char>, Seq<char>>(
                    values[i],
                )
        },
        all_or_first(results) matches Err(e) ==> exists|i: int|
            0 <= i < results.len() && #[trigger] results[i] == Err::<Seq<char>, Seq<char>>(e) && (
            forall|j: int| 0 <= j < i ==> (#[trigger] results[j]) is Ok),
    decreases results.len(),
{
    if results.len() > 0 {
        let front = results.drop_last();
        let n = results.len() - 1;
        the_first_error_counts(front);
        assert(results[n] == results.last());
        assert(forall|i: int| 0 <= i < n ==> front[i] == results[i]);
        match all_or_first(front) {
            Err(e) => {
                let i = choose|i: int|
                    0 <= i < front.len() && #[trigger] front[i] == Err::<Seq<char>, Seq<char>>(e)
                        && (forall|j: int| 0 <= j < i ==> (#[trigger] front[j]) is Ok);
                assert(results[i] == Err::<Seq<char>, Seq<char>>(e));
                assert forall|j: int| 0 <= j < i implies (#[trigger] results[j]) is Ok by {
                    assert(front[j] is Ok);
                }
            },
            Ok(values) => {
                assert forall|j: int| 0 <= j < n implies (#[trigger] results[j]) is Ok by {
                    assert(front[j] is Ok);
                }
                if results.last() is Err {
                    assert(results[n] == Err::<Seq<char>, Seq<char>>(results.last()->Err_0));
                } else {
                    assert forall|i: int| 0 <= i < results.len() implies #[trigger] results[i] == Ok::<
                        Seq<char>,
                        Seq<char>,
                    >(all_or_first(results)->Ok_0[i]) by {
                        if i < n {
                            assert(front[i] == Ok::<Seq<char>, Seq<char>>(values[i]));
                        }
                    }
                }
            },
        }
    }
}

/// Each input is read by itself, and each result seen as it is.
pub proof fn each_url_is_read_by_itself(
    inputs: Seq<Seq<char>>,
    results: Seq<Result<String, String>>,
)
    ensures
        each_parsed(inputs).len() == inputs.len(),
        forall|i: int|
            0 <= i < inputs.len() ==> #[trigger] each_parsed(inputs)[i] == parsed_url(inputs[i]),
        each_result(results).len() == results.len(),
        forall|i: int|
            0 <= i < results.len() ==> match #[trigger] results[i] {
                Ok(value) => each_result(results)[i] == Ok::<Seq<char>, Seq<char>>(value@),
                Err(e) => each_result(results)[i] == Err::<Seq<char>, Seq<char>>(e@),
            },
{
}

} // verus!
