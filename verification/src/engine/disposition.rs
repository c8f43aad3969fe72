//! The file name that a `Content-Disposition` header suggests.

use crate::text;
use vstd::prelude::*;

verus! {

/// Where the first semicolon outside double quotes stands; `quoted` says whether
/// the text begins inside quotes.
pub open spec fn separator(s: Seq<char>, quoted: bool) -> Option<int>
    decreases s.len(),
{
    if s.len() == 0 {
        None
    } else if s[0] == ';' && !quoted {
        Some(0)
    } else {
        match separator(
            s.drop_first(),
            if s[0] == '"' {
                !quoted
            } else {
                quoted
            },
        ) {
            Some(i) => Some(i + 1),
            None => None,
        }
    }
}

/// A value without the double quotes that surround it.
pub open spec fn unquoted(s: Seq<char>) -> Seq<char> {
    if s.len() >= 2 && s[0] == '"' && s.last() == '"' {
        s.subrange(1, s.len() - 1)
    } else {
        s
    }
}

/// What follows the last slash or backslash; all of it where there is none.
pub open spec fn last_component(s: Seq<char>) -> Seq<char>
    decreases s.len(),
{
    if s.len() == 0 {
        s
    } else if s.last() == '/' || s.last() == '\\' {
        Seq::empty()
    } else {
        last_component(s.drop_last()).push(s.last())
    }
}

/// A name that a file can have: not empty and neither `.` nor `..`.
pub open spec fn is_filename(s: Seq<char>) -> bool {
    s.len() > 0 && s != "."@ && s != ".."@
}

/// The file name that one parameter gives, if it is `filename=..` and its value,
/// without quotes and without directories, is a name that a file can have.
pub open spec fn name_in(param: Seq<char>) -> Option<Seq<char>> {
    match text::cut_at(param, '=') {
        Some((key, value)) => {
            let name = last_component(unquoted(text::trimmed(value)));
            if text::ascii_lowered(text::trimmed(key)) == "filename"@ && is_filename(name) {
                Some(name)
            } else {
                None
            }
        },
        None => None,
    }
}

/// The file name of the first part of the header that gives one. Parts are
/// separated by semicolons; the extended form `filename*` is not read.
pub open spec fn suggested(s: Seq<char>) -> Option<Seq<char>>
    decreases s.len(),
{
    match separator(s, false) {
        None => name_in(s),
        Some(i) => if 0 <= i < s.len() {
            match name_in(s.take(i)) {
                Some(name) => Some(name),
                None => suggested(s.skip(i + 1)),
            }
        } else {
            None
        },
    }
}

proof fn lemma_separator(s: Seq<char>, quoted: bool)
    ensures
        separator(s, quoted) matches Some(i) ==> 0 <= i < s.len(),
    decreases s.len(),
{
    if s.len() > 0 {
        lemma_separator(
            s.drop_first(),
            if s[0] == '"' {
                !quoted
            } else {
                quoted
            },
        );
    }
}

/// Where the first semicolon outside quotes stands.
fn find_separator(s: &str) -> (r: Option<usize>)
    ensures
        match r {
            Some(i) => separator(s@, false) == Some(i as int) && i < s@.len(),
            None => separator(s@, false) is None,
        },
{
    let n: usize = s.unicode_len();
    let mut quoted: bool = false;
    let mut i: usize = 0;
    assert(s@.skip(0) =~= s@);
    while i < n
        invariant
            i <= n == s@.len(),
            separator(s@, false) == (match separator(s@.skip(i as int), quoted) {
                Some(k) => Some(k + i),
                None => None,
            }),
        decreases n - i,
    {
        let c: char = s.get_char(i);
        proof {
            assert(s@.skip(i as int)[0] == c);
            assert(s@.skip(i as int).drop_first() =~= s@.skip(i + 1));
        }
        if c == ';' && !quoted {
            return Some(i);
        }
        if c == '"' {
            quoted = !quoted;
        }
        i += 1;
    }
    None
}

/// `s` without the double quotes that surround it.
fn unquote(s: &str) -> (t: &str)
    ensures
        t@ == unquoted(s@),
{
    let n: usize = s.unicode_len();
    if n >= 2 && s.get_char(0) == '"' && s.get_char(n - 1) == '"' {
        s.substring_char(1, n - 1)
    } else {
        s
    }
}

/// What follows the last slash or backslash.
fn without_directories(s: &str) -> (t: &str)
    ensures
        t@ == last_component(s@),
{
    let n: usize = s.unicode_len();
    let mut from: usize = n;
    assert(s@.take(n as int) =~= s@);
    assert(s@.skip(n as int) =~= Seq::<char>::empty());
    assert(last_component(s@.take(n as int)) + s@.skip(n as int) =~= last_component(s@));
    while from > 0
        invariant_except_break
            from <= n == s@.len(),
            last_component(s@.take(from as int)) + s@.skip(from as int) == last_component(s@),
        ensures
            from <= n == s@.len(),
            s@.skip(from as int) == last_component(s@),
        decreases from,
    {
        let c: char = s.get_char(from - 1);
        let ghost head = s@.take(from as int);
        proof {
            assert(head.last() == c);
            assert(head.drop_last() =~= s@.take(from - 1));
        }
        if c == '/' || c == '\\' {
            assert(Seq::<char>::empty() + s@.skip(from as int) =~= s@.skip(from as int));
            break;
        }
        proof {
            let before = last_component(s@.take(from - 1));
            assert(before.push(c) + s@.skip(from as int) =~= before + s@.skip(from - 1));
        }
        from -= 1;
        if from == 0 {
            assert(s@.take(0) =~= Seq::<char>::empty());
            assert(Seq::<char>::empty() + s@.skip(0) =~= s@.skip(0));
        }
    }
    let t = s.substring_char(from, n);
    assert(t@ =~= s@.skip(from as int));
    t
}

/// The file name that one parameter gives.
fn read_param(param: &str) -> (r: Option<String>)
    ensures
        text::opt(r) == name_in(param@),
{
    match text::split_once(param, '=') {
        Some((key, value)) => {
            let name = without_directories(unquote(text::trim(value)));
            proof {
                reveal_strlit("filename");
                assert(text::ascii_lowered("filename"@) =~= "filename"@);
            }
            if text::eq_ignore_ascii_case(text::trim(key), "filename") && name.unicode_len() > 0
                && !text::same(name, ".") && !text::same(name, "..") {
                Some(name.to_string())
            } else {
                None
            }
        },
        None => None,
    }
}

/// The file name that the header suggests.
pub fn suggested_name(header: &str) -> (r: Option<String>)
    ensures
        text::opt(r) == suggested(header@),
    decreases header@.len(),
{
    match find_separator(header) {
        None => read_param(header),
        Some(i) => {
            let n: usize = header.unicode_len();
            let first = header.substring_char(0, i);
            let rest = header.substring_char(i + 1, n);
            assert(first@ =~= header@.take(i as int));
            assert(rest@ =~= header@.skip(i + 1));
            match read_param(first) {
                Some(name) => Some(name),
                None => suggested_name(rest),
            }
        },
    }
}

/// A suggested name stays below the directory that it is joined to: it is a name
/// that a file can have and holds no separator.
pub proof fn suggested_names_are_file_names(s: Seq<char>)
    ensures
        suggested(s) matches Some(name) ==> is_filename(name) && !name.contains('/')
            && !name.contains('\\'),
    decreases s.len(),
{
    match separator(s, false) {
        None => {
            lemma_name(s);
        },
        Some(i) => {
            lemma_separator(s, false);
            lemma_name(s.take(i));
            if name_in(s.take(i)) is None {
                suggested_names_are_file_names(s.skip(i + 1));
            }
        },
    }
}

proof fn lemma_name(param: Seq<char>)
    ensures
        name_in(param) matches Some(name) ==> is_filename(name) && !name.contains('/')
            && !name.contains('\\'),
{
    if let Some((_, value)) = text::cut_at(param, '=') {
        lemma_no_separator(unquoted(text::trimmed(value)));
    }
}

proof fn lemma_no_separator(s: Seq<char>)
    ensures
        !last_component(s).contains('/'),
        !last_component(s).contains('\\'),
    decreases s.len(),
{
    if s.len() > 0 && s.last() != '/' && s.last() != '\\' {
        lemma_no_separator(s.drop_last());
        let before = last_component(s.drop_last());
        assert forall|i: int| 0 <= i < last_component(s).len() implies last_component(s)[i] != '/'
            && last_component(s)[i] != '\\' by {
            if i < before.len() {
                assert(before[i] == last_component(s)[i]);
                assert(before.contains(before[i]));
            }
        }
    }
}

/// Without quotes the parts of a header end at the first semicolon.
pub proof fn parts_end_at_semicolons(s: Seq<char>)
    requires
        !s.contains('"'),
    ensures
        separator(s, false) == text::first_of(s, ';'),
    decreases s.len(),
{
    if s.len() > 0 {
        let rest = s.drop_first();
        assert(s[0] != '"');
        assert forall|i: int| 0 <= i < rest.len() implies rest[i] != '"' by {
            assert(s[i + 1] == rest[i]);
        }
        parts_end_at_semicolons(rest);
    }
}

/// A semicolon in quotes ends no part: the text in quotes is passed over.
pub proof fn quoted_semicolons_are_passed_over(inner: Seq<char>, rest: Seq<char>)
    requires
        !inner.contains('"'),
    ensures
        separator(seq!['"'] + inner + seq!['"'] + rest, false) == (match separator(rest, false) {
            Some(i) => Some(i + inner.len() + 2),
            None => None::<int>,
        }),
{
    let s = seq!['"'] + inner + seq!['"'] + rest;
    assert(s.drop_first() =~= inner + (seq!['"'] + rest));
    lemma_inside_quotes(inner, rest);
}

proof fn lemma_inside_quotes(inner: Seq<char>, rest: Seq<char>)
    requires
        !inner.contains('"'),
    ensures
        separator(inner + (seq!['"'] + rest), true) == (match separator(rest, false) {
            Some(i) => Some(i + inner.len() + 1),
            None => None::<int>,
        }),
    decreases inner.len(),
{
    let s = inner + (seq!['"'] + rest);
    if inner.len() == 0 {
        assert(s =~= seq!['"'] + rest);
        assert(s.drop_first() =~= rest);
    } else {
        let tail = inner.drop_first();
        assert(s.drop_first() =~= tail + (seq!['"'] + rest));
        assert(s[0] == inner[0]);
        assert forall|i: int| 0 <= i < tail.len() implies tail[i] != '"' by {
            assert(inner[i + 1] == tail[i]);
        }
        lemma_inside_quotes(tail, rest);
    }
}

/// Quotes around a value are taken off, and a value without them is left as it is.
pub proof fn quotes_are_taken_off(inner: Seq<char>)
    ensures
        unquoted(seq!['"'] + inner + seq!['"']) == inner,
        inner.len() < 2 || inner[0] != '"' || inner.last() != '"' ==> unquoted(inner) == inner,
{
    let s = seq!['"'] + inner + seq!['"'];
    assert(s.subrange(1, s.len() - 1) =~= inner);
}

/// Of a path only the name is taken, behind the last separator.
pub proof fn directories_are_left_off(dir: Seq<char>, name: Seq<char>)
    requires
        !name.contains('/'),
        !name.contains('\\'),
    ensures
        last_component(name) == name,
        last_component(dir.push('/') + name) == name,
        last_component(dir.push('\\') + name) == name,
    decreases name.len(),
{
    let a = dir.push('/') + name;
    let b = dir.push('\\') + name;
    if name.len() == 0 {
        assert(a =~= dir.push('/'));
        assert(b =~= dir.push('\\'));
        assert(last_component(a) =~= name);
        assert(last_component(b) =~= name);
    } else {
        let front = name.drop_last();
        assert(name[name.len() - 1] == name.last());
        assert forall|i: int| 0 <= i < front.len() implies front[i] != '/' && front[i] != '\\' by {
            assert(name[i] == front[i]);
        }
        directories_are_left_off(dir, front);
        assert(a.drop_last() =~= dir.push('/') + front);
        assert(b.drop_last() =~= dir.push('\\') + front);
        assert(front.push(name.last()) =~= name);
    }
}

/// A parameter gives a name if it is called `filename`, in whatever case and with white
/// space around it, and its value, without quotes and directories, is a name that a file
/// can have. A part without an equals sign gives none.
pub proof fn a_parameter_gives_a_name(key: Seq<char>, value: Seq<char>)
    requires
        !key.contains('='),
    ensures
        ({
            let name = last_component(unquoted(text::trimmed(value)));
            let r = name_in(key.push('=') + value);
            &&& r is Some <==> text::ascii_lowered(text::trimmed(key)) == "filename"@ && name.len()
                > 0 && name != "."@ && name != ".."@
            &&& r is Some ==> r->0 == name
        }),
        name_in(key) is None,
{
    text::cutting_undoes_joining(key, '=', value);
    text::text_is_cut_at_the_first_separator(key, '=');
}

/// The first part of a header that gives a name counts; a header of one part is that part.
pub proof fn the_first_name_counts(first: Seq<char>, rest: Seq<char>)
    requires
        !first.contains('"'),
        !first.contains(';'),
    ensures
        suggested(first) == name_in(first),
        name_in(first) is Some ==> suggested(first.push(';') + rest) == name_in(first),
        name_in(first) is None ==> suggested(first.push(';') + rest) == suggested(rest),
{
    parts_end_at_semicolons(first);
    text::first_of_is_first(first, ';');
    let s = first.push(';') + rest;
    lemma_separator_behind(first, rest);
    let n = first.len() as int;
    assert(s.take(n) =~= first);
    assert(s.skip(n + 1) =~= rest);
}

proof fn lemma_separator_behind(first: Seq<char>, rest: Seq<char>)
    requires
        !first.contains('"'),
        !first.contains(';'),
    ensures
        separator(first.push(';') + rest, false) == Some(first.len() as int),
    decreases first.len(),
{
    let s = first.push(';') + rest;
    if first.len() > 0 {
        let tail = first.drop_first();
        assert(s.drop_first() =~= tail.push(';') + rest);
        assert(s[0] == first[0]);
        assert forall|i: int| 0 <= i < tail.len() implies tail[i] != '"' && tail[i] != ';' by {
            assert(first[i + 1] == tail[i]);
        }
        lemma_separator_behind(tail, rest);
    }
}

} // verus!
