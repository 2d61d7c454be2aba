//! Text operations over characters: trimming, prefixes, suffixes, splitting at a slash.

use vstd::prelude::*;

verus! {

/// The text of an optional string.
pub open spec fn text_of(s: Option<String>) -> Option<Seq<char>> {
    match s {
        Some(t) => Some(t@),
        None => None,
    }
}

/// The text of an optional string slice.
pub open spec fn str_text(s: Option<&str>) -> Option<Seq<char>> {
    match s {
        Some(t) => Some(t@),
        None => None,
    }
}

/// The characters with the Unicode property `White_Space`.
pub open spec fn is_white_space(c: char) -> bool {
    ||| '\u{9}' <= c <= '\u{d}'
    ||| c == '\u{20}'
    ||| c == '\u{85}'
    ||| c == '\u{a0}'
    ||| c == '\u{1680}'
    ||| '\u{2000}' <= c <= '\u{200a}'
    ||| c == '\u{2028}'
    ||| c == '\u{2029}'
    ||| c == '\u{202f}'
    ||| c == '\u{205f}'
    ||| c == '\u{3000}'
}

/// White space by code point: tab to carriage return, space, next line, the no-break spaces, the
/// Ogham and ideographic spaces, the spaces of fixed width, and the line and paragraph separators.
pub proof fn law_white_space(c: char)
    ensures
        is_white_space(c) <==> {
            ||| 9 <= c as u32 <= 13
            ||| c as u32 == 32
            ||| c as u32 == 133
            ||| c as u32 == 160
            ||| c as u32 == 5760
            ||| 8192 <= c as u32 <= 8202
            ||| c as u32 == 8232
            ||| c as u32 == 8233
            ||| c as u32 == 8239
            ||| c as u32 == 8287
            ||| c as u32 == 12288
        },
{
}

/// `s` without its leading white space.
pub open spec fn trimmed_start(s: Seq<char>) -> Seq<char>
    decreases s.len(),
{
    if s.len() > 0 && is_white_space(s.first()) {
        trimmed_start(s.drop_first())
    } else {
        s
    }
}

/// `s` without its trailing white space.
pub open spec fn trimmed_end(s: Seq<char>) -> Seq<char>
    decreases s.len(),
{
    if s.len() > 0 && is_white_space(s.last()) {
        trimmed_end(s.drop_last())
    } else {
        s
    }
}

/// `s` without its leading and trailing white space.
pub open spec fn trimmed(s: Seq<char>) -> Seq<char> {
    trimmed_end(trimmed_start(s))
}

/// Trimming leaves a text with no white space at either end, and trimming it again changes
/// nothing.
pub proof fn law_trimmed_is_trimmed(s: Seq<char>)
    ensures
        trimmed(s).len() > 0 ==> !is_white_space(trimmed(s).first()) && !is_white_space(
            trimmed(s).last(),
        ),
        trimmed(trimmed(s)) == trimmed(s),
{
    lemma_trimmed_start(s);
    lemma_trimmed_end(trimmed_start(s));
}

proof fn lemma_trimmed_start(s: Seq<char>)
    ensures
        trimmed_start(s).len() > 0 ==> !is_white_space(trimmed_start(s).first()),
    decreases s.len(),
{
    if s.len() > 0 && is_white_space(s.first()) {
        lemma_trimmed_start(s.drop_first());
    }
}

proof fn lemma_trimmed_end(s: Seq<char>)
    ensures
        trimmed_end(s).len() > 0 ==> !is_white_space(trimmed_end(s).last()),
        trimmed_end(s).len() > 0 ==> trimmed_end(s).first() == s.first(),
    decreases s.len(),
{
    if s.len() > 0 && is_white_space(s.last()) {
        lemma_trimmed_end(s.drop_last());
    }
}

/// Every character of `s` is white space.
pub open spec fn is_all_white(s: Seq<char>) -> bool {
    forall|i: int| 0 <= i < s.len() ==> is_white_space(#[trigger] s[i])
}

/// `core` is empty, or neither its first nor its last character is white space.
pub open spec fn has_bare_ends(core: Seq<char>) -> bool {
    core.len() > 0 ==> !is_white_space(core[0]) && !is_white_space(core[core.len() - 1])
}

/// White space before and behind a text is all that trimming takes away.
pub proof fn law_trimmed_is_core(before: Seq<char>, core: Seq<char>, behind: Seq<char>)
    requires
        is_all_white(before),
        is_all_white(behind),
        has_bare_ends(core),
    ensures
        trimmed(before + core + behind) == core,
{
    let inner = core + behind;
    assert(before + core + behind =~= before + inner);
    lemma_start_of_white(before, inner);
    if core.len() == 0 {
        assert(inner =~= behind);
        lemma_start_of_white(behind, Seq::empty());
        assert(behind + Seq::<char>::empty() =~= behind);
        assert(trimmed_start(inner) =~= Seq::empty());
    } else {
        assert(inner.first() == core[0]);
        assert(trimmed_start(inner) == inner);
        lemma_end_of_white(core, behind);
        assert(core.last() == core[core.len() - 1]);
    }
}

/// Every text is what trimming leaves of it, with white space before and behind.
pub proof fn law_trimmed_parts(s: Seq<char>)
    ensures
        exists|before: Seq<char>, behind: Seq<char>|
            {
                &&& is_all_white(before)
                &&& is_all_white(behind)
                &&& s == #[trigger] (before + trimmed(s) + behind)
            },
        has_bare_ends(trimmed(s)),
{
    law_trimmed_is_trimmed(s);
    let before = lemma_start_parts(s);
    let behind = lemma_end_parts(trimmed_start(s));
    assert(s =~= before + trimmed(s) + behind);
}

proof fn lemma_start_of_white(before: Seq<char>, rest: Seq<char>)
    requires
        is_all_white(before),
    ensures
        trimmed_start(before + rest) == trimmed_start(rest),
    decreases before.len(),
{
    if before.len() == 0 {
        assert(before + rest =~= rest);
    } else {
        assert(is_white_space(before[0]));
        assert((before + rest).drop_first() =~= before.drop_first() + rest);
        lemma_start_of_white(before.drop_first(), rest);
    }
}

proof fn lemma_end_of_white(core: Seq<char>, behind: Seq<char>)
    requires
        is_all_white(behind),
    ensures
        trimmed_end(core + behind) == trimmed_end(core),
    decreases behind.len(),
{
    if behind.len() == 0 {
        assert(core + behind =~= core);
    } else {
        assert(is_white_space(behind[behind.len() - 1]));
        assert((core + behind).drop_last() =~= core + behind.drop_last());
        lemma_end_of_white(core, behind.drop_last());
    }
}

proof fn lemma_start_parts(s: Seq<char>) -> (before: Seq<char>)
    ensures
        is_all_white(before),
        s == before + trimmed_start(s),
    decreases s.len(),
{
    if s.len() > 0 && is_white_space(s.first()) {
        let tail = lemma_start_parts(s.drop_first());
        let before = seq![s.first()] + tail;
        assert forall|i: int| 0 <= i < before.len() implies is_white_space(#[trigger] before[i]) by {
            if i > 0 {
                assert(before[i] == tail[i - 1]);
            }
        }
        assert(s =~= seq![s.first()] + s.drop_first());
        assert(seq![s.first()] + (tail + trimmed_start(s)) =~= before + trimmed_start(s));
        before
    } else {
        assert(s =~= Seq::<char>::empty() + s);
        Seq::empty()
    }
}

proof fn lemma_end_parts(s: Seq<char>) -> (behind: Seq<char>)
    ensures
        is_all_white(behind),
        s == trimmed_end(s) + behind,
    decreases s.len(),
{
    if s.len() > 0 && is_white_space(s.last()) {
        let front = lemma_end_parts(s.drop_last());
        let behind = front.push(s.last());
        assert(s =~= s.drop_last().push(s.last()));
        assert((trimmed_end(s) + front).push(s.last()) =~= trimmed_end(s) + behind);
        behind
    } else {
        assert(s =~= s + Seq::<char>::empty());
        Seq::empty()
    }
}

/// What follows `prefix` in `s`, where `s` starts with it.
pub open spec fn after_prefix(s: Seq<char>, prefix: Seq<char>) -> Option<Seq<char>> {
    if prefix.is_prefix_of(s) {
        Some(s.skip(prefix.len() as int))
    } else {
        None
    }
}

/// What precedes `suffix` in `s`, where `s` ends with it; all of `s` where it does not.
pub open spec fn without_suffix(s: Seq<char>, suffix: Seq<char>) -> Seq<char> {
    if suffix.is_suffix_of(s) {
        s.take(s.len() - suffix.len())
    } else {
        s
    }
}

/// A prefix put before any text is what stripping takes away, and stripping succeeds only there.
pub proof fn law_after_prefix(prefix: Seq<char>, rest: Seq<char>, s: Seq<char>)
    ensures
        after_prefix(prefix + rest, prefix) == Some(rest),
        after_prefix(s, prefix) matches Some(r) ==> s == prefix + r,
{
    assert(prefix.is_prefix_of(prefix + rest)) by {
        assert((prefix + rest).subrange(0, prefix.len() as int) =~= prefix);
    }
    assert((prefix + rest).skip(prefix.len() as int) =~= rest);
    if prefix.is_prefix_of(s) {
        assert(s =~= prefix + s.skip(prefix.len() as int));
    }
}

/// A suffix put behind any text is what stripping takes away, once. A text that is not made so
/// stays as it is.
pub proof fn law_without_suffix(body: Seq<char>, suffix: Seq<char>, s: Seq<char>)
    ensures
        without_suffix(body + suffix, suffix) == body,
        without_suffix(s, suffix) + suffix == s || without_suffix(s, suffix) == s,
        s != body + suffix ==> without_suffix(s, suffix) != body || body == s,
{
    let whole = body + suffix;
    assert(suffix.is_suffix_of(whole)) by {
        assert(whole.subrange(whole.len() - suffix.len(), whole.len() as int) =~= suffix);
    }
    assert(whole.take(whole.len() - suffix.len()) =~= body);
    if suffix.is_suffix_of(s) {
        assert(s =~= without_suffix(s, suffix) + suffix);
    }
}

/// The text of an optional string is there exactly where the string is, and is that string's.
pub proof fn law_optional_text(s: String, t: &str)
    ensures
        text_of(Some(s)) == Some(s@),
        text_of(None) is None,
        str_text(Some(t)) == Some(t@),
        str_text(None) is None,
{
}

/// Calls `str::trim`, which returns the string slice with leading and trailing white space
/// removed, white space being what has the Unicode property `White_Space`.
#[verifier::external_body]
pub(crate) fn trim(s: &str) -> (r: &str)
    ensures
        r@ == trimmed(s@),
{
    s.trim()
}

/// Whether two string slices hold the same characters.
pub fn same_text(a: &str, b: &str) -> (same: bool)
    ensures
        same == (a@ == b@),
{
    a.to_owned() == b.to_owned()
}

/// What follows `prefix` in `s`, or `None` where `s` does not start with it.
pub fn strip_prefix<'a>(s: &'a str, prefix: &str) -> (rest: Option<&'a str>)
    ensures
        match rest {
            Some(r) => after_prefix(s@, prefix@) == Some(r@),
            None => after_prefix(s@, prefix@) is None,
        },
{
    let n: usize = s.unicode_len();
    let k: usize = prefix.unicode_len();
    if k > n {
        return None;
    }
    if same_text(s.substring_char(0, k), prefix) {
        assert(prefix@.is_prefix_of(s@));
        Some(s.substring_char(k, n))
    } else {
        assert(prefix@.is_prefix_of(s@) ==> s@.subrange(0, k as int) =~= prefix@);
        None
    }
}

/// `s` without `suffix` at its end, or all of `s` where it does not end with it.
pub fn strip_suffix_or_all<'a>(s: &'a str, suffix: &str) -> (rest: &'a str)
    ensures
        rest@ == without_suffix(s@, suffix@),
{
    let n: usize = s.unicode_len();
    let k: usize = suffix.unicode_len();
    if k > n {
        return s;
    }
    if same_text(s.substring_char(n - k, n), suffix) {
        assert(suffix@.is_suffix_of(s@));
        s.substring_char(0, n - k)
    } else {
        assert(suffix@.is_suffix_of(s@) ==> s@.subrange(n - k, n as int) =~= suffix@);
        s
    }
}

/// The position of the first slash in `s`.
pub fn find_slash(s: &str) -> (position: Option<usize>)
    ensures
        match position {
            Some(i) => i < s@.len() && s@[i as int] == '/' && !s@.take(i as int).contains('/'),
            None => !s@.contains('/'),
        },
{
    let mut i: usize = 0;
    let n: usize = s.unicode_len();
    for c in it: s.chars()
        invariant
            n == s@.len(),
            it.seq() == s@,
            i == it.index(),
            forall|j: int| 0 <= j < i ==> s@[j] != '/',
    {
        if c == '/' {
            return Some(i);
        }
        i = i + 1;
    }
    None
}

} // verus!
