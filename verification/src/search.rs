use vstd::prelude::*;
use vstd::string::StrSliceExecFns;

verus! {

// --- What it means for one character sequence to contain another ---

/// `needle` occurs contiguously somewhere in `hay` (the empty needle occurs
/// in every haystack).
pub open spec fn contains_seq(hay: Seq<char>, needle: Seq<char>) -> bool {
    exists|k: int|
        0 <= k && k + needle.len() <= hay.len() && #[trigger] hay.subrange(
            k,
            k + needle.len() as int,
        ) == needle
}

// --- Simple per-character case folding ---

/// Folds one character: an ASCII capital letter becomes its small form,
/// every other character is unchanged.
pub open spec fn lower_char(c: char) -> char {
    if 'A' <= c && c <= 'Z' {
        (((c as u32) + 32) as u8) as char
    } else {
        c
    }
}

/// Folds every character of a sequence.
pub open spec fn lower_seq(s: Seq<char>) -> Seq<char> {
    s.map_values(|c: char| lower_char(c))
}

// --- Splitting a text body into lines ---

/// Index of the first line feed in `s`, or `s.len()` if there is none.
pub open spec fn first_newline(s: Seq<char>) -> int
    decreases s.len(),
{
    if s.len() == 0 {
        0
    } else if s[0] == '\n' {
        0
    } else {
        1 + first_newline(s.subrange(1, s.len() as int))
    }
}

/// Removes one trailing carriage return, if present: the remnant of a
/// `\r\n` line ending once the line feed is gone.
pub open spec fn chop_cr(line: Seq<char>) -> Seq<char> {
    if line.len() > 0 && line[line.len() - 1] == '\r' {
        line.drop_last()
    } else {
        line
    }
}

/// The lines of `s`: separated by `\n` or `\r\n`, a trailing separator
/// yielding no empty final line, a last line without a separator still
/// counted. A carriage return not followed by a line feed stays in its line.
pub open spec fn lines_of(s: Seq<char>) -> Seq<Seq<char>>
    decreases s.len(),
{
    if s.len() == 0 {
        Seq::empty()
    } else {
        let k = first_newline(s);
        if 0 <= k < s.len() {
            seq![chop_cr(s.subrange(0, k))] + lines_of(s.subrange(k + 1, s.len() as int))
        } else {
            seq![s]
        }
    }
}

pub proof fn lemma_first_newline(s: Seq<char>)
    ensures
        0 <= first_newline(s) <= s.len(),
        first_newline(s) < s.len() ==> s[first_newline(s)] == '\n',
        forall|j: int| 0 <= j < first_newline(s) ==> s[j] != '\n',
    decreases s.len(),
{
    if s.len() == 0 {
    } else if s[0] == '\n' {
    } else {
        let t = s.subrange(1, s.len() as int);
        lemma_first_newline(t);
        assert forall|j: int| 0 <= j < first_newline(s) implies s[j] != '\n' by {
            if j > 0 {
                assert(s[j] == t[j - 1]);
            }
        }
    }
}

/// The first line feed is at `k` exactly when no earlier character is a line
/// feed and either `k` is past the end or the character there is one.
pub proof fn lemma_first_newline_is(s: Seq<char>, k: int)
    requires
        0 <= k <= s.len(),
        forall|j: int| 0 <= j < k ==> s[j] != '\n',
        k < s.len() ==> s[k] == '\n',
    ensures
        first_newline(s) == k,
{
    lemma_first_newline(s);
    if first_newline(s) < k {
        assert(s[first_newline(s)] == '\n');
    }
    if k < first_newline(s) {
        assert(s[k] != '\n');
    }
}

// --- Executable helpers over character vectors ---

/// The characters of a string slice, in order.
fn chars_vec(s: &str) -> (chars: Vec<char>)
    ensures
        chars@ == s@,
{
    let n = s.unicode_len();
    let mut chars: Vec<char> = Vec::new();
    let mut i: usize = 0;
    while i < n
        invariant
            i <= n,
            n == s@.len(),
            chars@ == s@.subrange(0, i as int),
        decreases n - i,
    {
        let c = s.get_char(i);
        chars.push(c);
        assert(chars@ =~= s@.subrange(0, i + 1 as int));
        i = i + 1;
    }
    assert(chars@ =~= s@);
    chars
}

fn lower_char_exec(c: char) -> (folded: char)
    ensures
        folded == lower_char(c),
{
    if 'A' <= c && c <= 'Z' {
        (((c as u32) + 32) as u8) as char
    } else {
        c
    }
}

fn lower_chars(v: &Vec<char>) -> (folded: Vec<char>)
    ensures
        folded@ == lower_seq(v@),
{
    let mut folded: Vec<char> = Vec::new();
    let mut i: usize = 0;
    while i < v.len()
        invariant
            i <= v@.len(),
            folded@.len() == i,
            forall|j: int| 0 <= j < i ==> folded@[j] == lower_char(v@[j]),
        decreases v@.len() - i,
    {
        let c = lower_char_exec(v[i]);
        folded.push(c);
        i = i + 1;
    }
    assert(folded@ =~= lower_seq(v@));
    folded
}

/// Whether `needle` matches `hay` at offset `k`.
fn match_at(hay: &Vec<char>, needle: &Vec<char>, k: usize) -> (matched: bool)
    requires
        k + needle@.len() <= hay@.len(),
    ensures
        matched == (hay@.subrange(k as int, k as int + needle@.len() as int) == needle@),
{
    let hay_len: usize = hay.len();
    let mut j: usize = 0;
    while j < needle.len()
        invariant
            j <= needle@.len(),
            k + needle@.len() <= hay@.len(),
            hay_len == hay@.len(),
            forall|t: int| 0 <= t < j ==> hay@[k + t] == needle@[t],
        decreases needle@.len() - j,
    {
        if hay[k + j] != needle[j] {
            assert(hay@.subrange(k as int, k as int + needle@.len() as int)[j as int] == hay@[k
                + j]);
            return false;
        }
        j = j + 1;
    }
    assert(hay@.subrange(k as int, k as int + needle@.len() as int) =~= needle@);
    true
}

/// Whether `needle` occurs anywhere in `hay`, decided by checking each offset.
fn contains_chars(hay: &Vec<char>, needle: &Vec<char>) -> (found: bool)
    ensures
        found == contains_seq(hay@, needle@),
{
    if needle.len() > hay.len() {
        assert(!contains_seq(hay@, needle@));
        return false;
    }
    let last_offset = hay.len() - needle.len();
    let mut k: usize = 0;
    loop
        invariant
            k <= last_offset,
            needle@.len() <= hay@.len(),
            last_offset == hay@.len() - needle@.len(),
            forall|t: int|
                0 <= t < k ==> #[trigger] hay@.subrange(t, t + needle@.len() as int) != needle@,
        decreases last_offset - k,
    {
        if match_at(hay, needle, k) {
            assert(contains_seq(hay@, needle@));
            return true;
        }
        if k == last_offset {
            assert forall|t: int|
                !(0 <= t && t + needle@.len() <= hay@.len() && #[trigger] hay@.subrange(
                    t,
                    t + needle@.len() as int,
                ) == needle@) by {
                if 0 <= t && t + needle@.len() <= hay@.len() {
                    assert(t <= last_offset);
                }
            }
            return false;
        }
        k = k + 1;
    }
}

// --- The search itself ---

/// Whether one line matches the query under the given case policy.
pub open spec fn line_matches(line: Seq<char>, query: Seq<char>, case_sensitive: bool) -> bool {
    if case_sensitive {
        contains_seq(line, query)
    } else {
        contains_seq(lower_seq(line), lower_seq(query))
    }
}

/// The lines among `lines` that match `query`, kept in their original order.
pub open spec fn matching_lines(
    query: Seq<char>,
    lines: Seq<Seq<char>>,
    case_sensitive: bool,
) -> Seq<Seq<char>>
    decreases lines.len(),
{
    if lines.len() == 0 {
        Seq::empty()
    } else {
        let init = matching_lines(query, lines.drop_last(), case_sensitive);
        if line_matches(lines.last(), query, case_sensitive) {
            init.push(lines.last())
        } else {
            init
        }
    }
}

/// What a search returns: the matching lines of `contents`, in order.
pub open spec fn search_results(
    query: Seq<char>,
    contents: Seq<char>,
    case_sensitive: bool,
) -> Seq<Seq<char>> {
    matching_lines(query, lines_of(contents), case_sensitive)
}

proof fn lemma_matching_push(
    query: Seq<char>,
    lines: Seq<Seq<char>>,
    line: Seq<char>,
    case_sensitive: bool,
)
    ensures
        matching_lines(query, lines.push(line), case_sensitive) == (if line_matches(
            line,
            query,
            case_sensitive,
        ) {
            matching_lines(query, lines, case_sensitive).push(line)
        } else {
            matching_lines(query, lines, case_sensitive)
        }),
{
    let grown = lines.push(line);
    assert(grown.drop_last() =~= lines);
    assert(grown.last() == line);
}

/// Splitting off the first line of the suffix of `s` that starts at `start`,
/// when the first line feed at or after `start` sits at `i`.
proof fn lemma_lines_step(s: Seq<char>, start: int, i: int)
    requires
        0 <= start <= i < s.len(),
        forall|j: int| start <= j < i ==> s[j] != '\n',
        s[i] == '\n',
    ensures
        lines_of(s.subrange(start, s.len() as int)) == seq![chop_cr(s.subrange(start, i))]
            + lines_of(s.subrange(i + 1, s.len() as int)),
{
    let n = s.len() as int;
    let suffix = s.subrange(start, n);
    assert forall|j: int| 0 <= j < i - start implies suffix[j] != '\n' by {
        assert(suffix[j] == s[start + j]);
    }
    assert(suffix[i - start] == '\n');
    lemma_first_newline_is(suffix, i - start);
    assert(suffix.subrange(0, i - start) =~= s.subrange(start, i));
    assert(suffix.subrange(i - start + 1, suffix.len() as int) =~= s.subrange(i + 1, n));
}

/// The suffix of `s` that starts at `start` is one whole line when it is
/// non-empty and free of line feeds.
proof fn lemma_lines_last(s: Seq<char>, start: int)
    requires
        0 <= start < s.len(),
        forall|j: int| start <= j < s.len() ==> s[j] != '\n',
    ensures
        lines_of(s.subrange(start, s.len() as int)) == seq![s.subrange(start, s.len() as int)],
{
    let n = s.len() as int;
    let suffix = s.subrange(start, n);
    assert forall|j: int| 0 <= j < suffix.len() implies suffix[j] != '\n' by {
        assert(suffix[j] == s[start + j]);
    }
    lemma_first_newline_is(suffix, suffix.len() as int);
}

/// One scan over `contents`, shared by both modes: cuts it into lines and
/// keeps each line that matches `query` under the given case policy.
fn search_impl<'a>(query: &str, contents: &'a str, case_sensitive: bool) -> (results: Vec<
    &'a str,
>)
    ensures
        results.deep_view() == search_results(query@, contents@, case_sensitive),
{
    let query_chars = chars_vec(query);
    let needle = if case_sensitive {
        query_chars
    } else {
        lower_chars(&query_chars)
    };
    let n = contents.unicode_len();
    let mut results: Vec<&'a str> = Vec::new();
    let ghost mut done: Seq<Seq<char>> = Seq::empty();
    let mut start: usize = 0;
    let mut i: usize = 0;
    proof {
        assert(contents@.subrange(0, n as int) =~= contents@);
        assert(done + lines_of(contents@) =~= lines_of(contents@));
        assert(results.deep_view() =~= matching_lines(query@, done, case_sensitive));
    }
    while i < n
        invariant
            start <= i <= n,
            n == contents@.len(),
            needle@ == (if case_sensitive {
                query@
            } else {
                lower_seq(query@)
            }),
            forall|j: int| start <= j < i ==> contents@[j] != '\n',
            lines_of(contents@) == done + lines_of(
                contents@.subrange(start as int, n as int),
            ),
            results.deep_view() == matching_lines(query@, done, case_sensitive),
        decreases n - i,
    {
        if contents.get_char(i) == '\n' {
            let line_end = if i > start && contents.get_char(i - 1) == '\r' {
                i - 1
            } else {
                i
            };
            let line = contents.substring_char(start, line_end);
            let line_chars = chars_vec(line);
            let candidate = if case_sensitive {
                line_chars
            } else {
                lower_chars(&line_chars)
            };
            let is_match = contains_chars(&candidate, &needle);
            proof {
                let before_cr = contents@.subrange(start as int, i as int);
                if i > start && contents@[i as int - 1] == '\r' {
                    assert(before_cr[before_cr.len() - 1] == '\r');
                    assert(before_cr.drop_last() =~= contents@.subrange(
                        start as int,
                        i as int - 1,
                    ));
                } else {
                    if i > start {
                        assert(before_cr[before_cr.len() - 1] == contents@[i as int - 1]);
                    }
                }
                assert(line@ == chop_cr(before_cr));
                assert(is_match == line_matches(line@, query@, case_sensitive));
                lemma_lines_step(contents@, start as int, i as int);
                lemma_matching_push(query@, done, line@, case_sensitive);
            }
            if is_match {
                results.push(line);
                proof {
                    assert(results.deep_view() =~= matching_lines(
                        query@,
                        done,
                        case_sensitive,
                    ).push(line@));
                }
            }
            proof {
                let rest = lines_of(contents@.subrange(i as int + 1, n as int));
                assert(done + (seq![line@] + rest) =~= done.push(line@) + rest);
                done = done.push(line@);
            }
            start = i + 1;
        }
        i = i + 1;
    }
    if start < n {
        let line = contents.substring_char(start, n);
        let line_chars = chars_vec(line);
        let candidate = if case_sensitive {
            line_chars
        } else {
            lower_chars(&line_chars)
        };
        let is_match = contains_chars(&candidate, &needle);
        proof {
            assert(is_match == line_matches(line@, query@, case_sensitive));
            lemma_lines_last(contents@, start as int);
            lemma_matching_push(query@, done, line@, case_sensitive);
        }
        if is_match {
            results.push(line);
            proof {
                assert(results.deep_view() =~= matching_lines(
                    query@,
                    done,
                    case_sensitive,
                ).push(line@));
            }
        }
        proof {
            assert(done + seq![line@] =~= done.push(line@));
            done = done.push(line@);
        }
    } else {
        proof {
            assert(contents@.subrange(start as int, n as int).len() == 0);
            assert(done + lines_of(contents@.subrange(start as int, n as int)) =~= done);
        }
    }
    proof {
        assert(done == lines_of(contents@));
    }
    results
}

// --- Laws of the search ---

/// `xs` can be read out of `ys` from left to right: `ys`'s relative order
/// is kept.
pub open spec fn is_subsequence_of<A>(xs: Seq<A>, ys: Seq<A>) -> bool
    decreases ys.len(), xs.len(),
{
    if xs.len() == 0 {
        true
    } else if ys.len() == 0 {
        false
    } else {
        (xs.last() == ys.last() && is_subsequence_of(xs.drop_last(), ys.drop_last()))
            || is_subsequence_of(xs, ys.drop_last())
    }
}

/// Every line a search keeps comes from the given lines and matches the query.
pub proof fn lemma_matching_lines_sound(
    query: Seq<char>,
    lines: Seq<Seq<char>>,
    case_sensitive: bool,
)
    ensures
        forall|i: int|
            0 <= i < matching_lines(query, lines, case_sensitive).len() ==> lines.contains(
                #[trigger] matching_lines(query, lines, case_sensitive)[i],
            ) && line_matches(
                matching_lines(query, lines, case_sensitive)[i],
                query,
                case_sensitive,
            ),
    decreases lines.len(),
{
    if lines.len() == 0 {
    } else {
        let init = lines.drop_last();
        lemma_matching_lines_sound(query, init, case_sensitive);
        let kept = matching_lines(query, lines, case_sensitive);
        let kept_init = matching_lines(query, init, case_sensitive);
        assert forall|i: int|
            0 <= i < kept.len() implies lines.contains(#[trigger] kept[i]) && line_matches(
            kept[i],
            query,
            case_sensitive,
        ) by {
            if i < kept_init.len() {
                assert(kept[i] == kept_init[i]);
                let w = choose|w: int| 0 <= w < init.len() && init[w] == kept_init[i];
                assert(lines[w] == kept[i]);
            } else {
                assert(kept[i] == lines.last());
                assert(lines[lines.len() - 1] == lines.last());
            }
        }
    }
}

/// Every given line that matches the query is kept by the search.
pub proof fn lemma_matching_lines_complete(
    query: Seq<char>,
    lines: Seq<Seq<char>>,
    case_sensitive: bool,
)
    ensures
        forall|i: int|
            0 <= i < lines.len() && line_matches(#[trigger] lines[i], query, case_sensitive)
                ==> matching_lines(query, lines, case_sensitive).contains(lines[i]),
    decreases lines.len(),
{
    if lines.len() == 0 {
    } else {
        let init = lines.drop_last();
        lemma_matching_lines_complete(query, init, case_sensitive);
        let kept = matching_lines(query, lines, case_sensitive);
        let kept_init = matching_lines(query, init, case_sensitive);
        assert forall|i: int|
            0 <= i < lines.len() && line_matches(
                #[trigger] lines[i],
                query,
                case_sensitive,
            ) implies kept.contains(lines[i]) by {
            if i < lines.len() - 1 {
                assert(init[i] == lines[i]);
                let w = choose|w: int| 0 <= w < kept_init.len() && kept_init[w] == lines[i];
                assert(kept[w] == lines[i]);
            } else {
                assert(kept.last() == lines[i]);
                assert(kept[kept.len() - 1] == lines[i]);
            }
        }
    }
}

/// The search keeps the original order: its result is a subsequence of the
/// given lines.
pub proof fn lemma_matching_lines_subsequence(
    query: Seq<char>,
    lines: Seq<Seq<char>>,
    case_sensitive: bool,
)
    ensures
        is_subsequence_of(matching_lines(query, lines, case_sensitive), lines),
    decreases lines.len(),
{
    if lines.len() == 0 {
    } else {
        let init = lines.drop_last();
        lemma_matching_lines_subsequence(query, init, case_sensitive);
        let kept = matching_lines(query, lines, case_sensitive);
        let kept_init = matching_lines(query, init, case_sensitive);
        if line_matches(lines.last(), query, case_sensitive) {
            assert(kept == kept_init.push(lines.last()));
            assert(kept.last() == lines.last());
            assert(kept.drop_last() =~= kept_init);
        }
    }
}

/// Folding preserves containment: if `needle` occurs in `hay`, the folded
/// needle occurs in the folded haystack.
proof fn lemma_lower_preserves_contains(hay: Seq<char>, needle: Seq<char>)
    requires
        contains_seq(hay, needle),
    ensures
        contains_seq(lower_seq(hay), lower_seq(needle)),
{
    let k = choose|k: int|
        0 <= k && k + needle.len() <= hay.len() && #[trigger] hay.subrange(
            k,
            k + needle.len() as int,
        ) == needle;
    assert forall|t: int| 0 <= t < needle.len() implies lower_seq(hay)[k + t] == lower_seq(
        needle,
    )[t] by {
        assert(hay.subrange(k, k + needle.len() as int)[t] == hay[k + t]);
    }
    assert(lower_seq(hay).subrange(k, k + lower_seq(needle).len() as int) =~= lower_seq(needle));
}

/// Law: with a non-empty query, the case-sensitive result holds exactly the
/// lines of `contents` that contain the query, and in their original order.
pub proof fn lemma_search_exact(query: Seq<char>, contents: Seq<char>)
    requires
        query.len() > 0,
    ensures
        forall|i: int|
            0 <= i < search_results(query, contents, true).len() ==> contains_seq(
                #[trigger] search_results(query, contents, true)[i],
                query,
            ),
        forall|i: int|
            0 <= i < lines_of(contents).len() && contains_seq(
                #[trigger] lines_of(contents)[i],
                query,
            ) ==> search_results(query, contents, true).contains(lines_of(contents)[i]),
        is_subsequence_of(search_results(query, contents, true), lines_of(contents)),
{
    lemma_matching_lines_sound(query, lines_of(contents), true);
    lemma_matching_lines_complete(query, lines_of(contents), true);
    lemma_matching_lines_subsequence(query, lines_of(contents), true);
}

/// Law: the case-insensitive result admits every line of the case-sensitive
/// result for the same inputs; folding can only add matches.
pub proof fn lemma_case_insensitive_superset(query: Seq<char>, contents: Seq<char>)
    ensures
        forall|line: Seq<char>|
            search_results(query, contents, true).contains(line) ==> search_results(
                query,
                contents,
                false,
            ).contains(line),
{
    let lines = lines_of(contents);
    lemma_matching_lines_sound(query, lines, true);
    lemma_matching_lines_complete(query, lines, false);
    assert forall|line: Seq<char>|
        search_results(query, contents, true).contains(line) implies search_results(
        query,
        contents,
        false,
    ).contains(line) by {
        let kept = matching_lines(query, lines, true);
        let w = choose|w: int| 0 <= w < kept.len() && kept[w] == line;
        assert(lines.contains(line) && line_matches(line, query, true));
        lemma_lower_preserves_contains(line, query);
        let v = choose|v: int| 0 <= v < lines.len() && lines[v] == line;
        assert(line_matches(lines[v], query, false));
    }
}

/// Law: a search is a pure function of its inputs; two case-sensitive results
/// computed from the same query and contents are the same sequence.
pub proof fn lemma_search_deterministic(
    query: Seq<char>,
    contents: Seq<char>,
    first: Seq<Seq<char>>,
    second: Seq<Seq<char>>,
)
    requires
        first == search_results(query, contents, true),
        second == search_results(query, contents, true),
    ensures
        first == second,
{
}

/// Law: the empty query matches every line, so searching a non-empty body
/// with it returns every line of the body, in order, in both modes.
pub proof fn lemma_empty_query_returns_all_lines(query: Seq<char>, contents: Seq<char>)
    requires
        query.len() == 0,
        contents.len() > 0,
    ensures
        search_results(query, contents, true) == lines_of(contents),
        search_results(query, contents, false) == lines_of(contents),
{
    lemma_matching_all(query, lines_of(contents), true);
    lemma_matching_all(query, lines_of(contents), false);
}

/// An empty query matches every line, in either mode.
proof fn lemma_matching_all(query: Seq<char>, lines: Seq<Seq<char>>, case_sensitive: bool)
    requires
        query.len() == 0,
    ensures
        matching_lines(query, lines, case_sensitive) == lines,
    decreases lines.len(),
{
    if lines.len() == 0 {
        assert(matching_lines(query, lines, case_sensitive) =~= lines);
    } else {
        lemma_matching_all(query, lines.drop_last(), case_sensitive);
        let last = lines.last();
        assert(last.subrange(0, 0 + query.len() as int) =~= query);
        assert(lower_seq(last).subrange(0, 0 + lower_seq(query).len() as int) =~= lower_seq(
            query,
        ));
        assert(line_matches(last, query, case_sensitive));
        assert(lines.drop_last().push(last) =~= lines);
    }
}

/// Law: an empty body has no lines, so a search over it returns the empty
/// sequence, whatever the query and whatever the mode.
pub proof fn lemma_empty_contents_no_results(
    query: Seq<char>,
    contents: Seq<char>,
    case_sensitive: bool,
)
    requires
        contents.len() == 0,
    ensures
        search_results(query, contents, case_sensitive) == Seq::<Seq<char>>::empty(),
{
}

/// All lines of `contents` that contain `query` as an exact substring, in
/// their original order.
pub fn search<'a>(query: &str, contents: &'a str) -> (results: Vec<&'a str>)
    ensures
        results.deep_view() == search_results(query@, contents@, true),
{
    search_impl(query, contents, true)
}

/// All lines of `contents` that contain `query` once both are folded by
/// `lower_seq`, in their original order.
pub fn search_case_insensitive<'a>(query: &str, contents: &'a str) -> (results: Vec<&'a str>)
    ensures
        results.deep_view() == search_results(query@, contents@, false),
{
    search_impl(query, contents, false)
}

} // verus!
