//! Strings as sequences of characters: trimming, splitting, searching,
//! comparing and the decimal notation of numbers.
use vstd::prelude::*;
use vstd::string::*;

verus! {

/// The characters with the Unicode property White_Space.
pub open spec fn whitespace(c: char) -> bool {
    let u = c as int;
    ||| 0x09 <= u <= 0x0d
    ||| u == 0x20
    ||| u == 0x85
    ||| u == 0xa0
    ||| u == 0x1680
    ||| 0x2000 <= u <= 0x200a
    ||| u == 0x2028
    ||| u == 0x2029
    ||| u == 0x202f
    ||| u == 0x205f
    ||| u == 0x3000
}

/// `char::is_whitespace` of the standard library tells whether a character has
/// the Unicode property White_Space. The contract lists the characters that
/// have it.
pub assume_specification[ char::is_whitespace ](c: char) -> (b: bool)
    ensures
        b == whitespace(c),
;

/// `String::push` of the standard library appends one character.
pub assume_specification[ String::push ](s: &mut String, c: char)
    ensures
        final(s)@ == old(s)@.push(c),
;

/// The characters of `s`.
pub fn chars_of(s: &str) -> (out: Vec<char>)
    ensures
        out@ == s@,
{
    let mut out: Vec<char> = Vec::new();
    for c in it: s.chars()
        invariant
            out@ == s@.take(it.index()),
            it.seq() == s@,
    {
        out.push(c);
    }
    out
}

/// The string that the characters make up.
pub fn string_of(chars: &[char]) -> (out: String)
    ensures
        out@ == chars@,
{
    let mut out = String::new();
    for i in 0..chars.len()
        invariant
            out@ == chars@.take(i as int),
    {
        out.push(chars[i]);
    }
    proof {
        assert(chars@.take(chars@.len() as int) == chars@);
    }
    out
}

/// Whether two strings are the same.
pub fn str_eq(a: &str, b: &str) -> (r: bool)
    ensures
        r == (a@ == b@),
{
    a.to_owned() == b.to_owned()
}

/// The views of a list of strings.
pub open spec fn views(list: Seq<String>) -> Seq<Seq<char>> {
    list.map_values(|s: String| s@)
}

/// The view of a string that may be missing.
pub open spec fn opt_view(s: Option<String>) -> Option<Seq<char>> {
    match s {
        Some(s) => Some(s@),
        None => None,
    }
}

/// The view of a borrowed string that may be missing.
pub open spec fn opt_str_view(s: Option<&str>) -> Option<Seq<char>> {
    match s {
        Some(s) => Some(s@),
        None => None,
    }
}

/// Whether two lists hold the same texts.
pub fn same_texts(a: &Vec<String>, b: &Vec<String>) -> (r: bool)
    ensures
        r == (views(a@) == views(b@)),
{
    if a.len() != b.len() {
        proof {
            assert(views(a@).len() != views(b@).len());
        }
        return false;
    }
    for i in 0..a.len()
        invariant
            a@.len() == b@.len(),
            forall|k: int| 0 <= k < i ==> views(a@)[k] == views(b@)[k],
    {
        if !str_eq(a[i].as_str(), b[i].as_str()) {
            proof {
                assert(views(a@)[i as int] != views(b@)[i as int]);
            }
            return false;
        }
    }
    proof {
        assert(views(a@) =~= views(b@));
    }
    true
}

/// Copies a list of texts.
pub fn copy_texts(texts: &Vec<String>) -> (copy: Vec<String>)
    ensures
        views(copy@) == views(texts@),
{
    let mut copy: Vec<String> = Vec::new();
    for i in 0..texts.len()
        invariant
            views(copy@) == views(texts@).take(i as int),
    {
        let ghost before = copy@;
        copy.push(texts[i].clone());
        proof {
            assert(views(copy@) =~= views(before).push(texts@[i as int]@));
            assert(views(texts@).take(i + 1) =~= views(texts@).take(i as int).push(
                texts@[i as int]@,
            ));
        }
    }
    proof {
        assert(views(texts@).take(texts@.len() as int) =~= views(texts@));
    }
    copy
}

// ---------------------------------------------------------------------------
// Trimming
// ---------------------------------------------------------------------------

/// `s` without the white space that it starts with.
pub open spec fn trim_start(s: Seq<char>) -> Seq<char>
    decreases s.len(),
{
    if s.len() > 0 && whitespace(s[0]) {
        trim_start(s.skip(1))
    } else {
        s
    }
}

/// `s` without the white space that it ends with.
pub open spec fn trim_end(s: Seq<char>) -> Seq<char>
    decreases s.len(),
{
    if s.len() > 0 && whitespace(s.last()) {
        trim_end(s.drop_last())
    } else {
        s
    }
}

/// `s` without the white space at either end.
pub open spec fn trimmed(s: Seq<char>) -> Seq<char> {
    trim_end(trim_start(s))
}

/// Drops the white space at either end.
pub fn trim_chars(s: &[char]) -> (out: Vec<char>)
    ensures
        out@ == trimmed(s@),
{
    let mut start: usize = 0;
    proof {
        assert(s@.skip(0) == s@);
    }
    while start < s.len() && s[start].is_whitespace()
        invariant
            start <= s.len(),
            trim_start(s@.skip(start as int)) == trim_start(s@),
        decreases s.len() - start,
    {
        proof {
            assert(s@.skip(start as int).skip(1) == s@.skip(start + 1));
        }
        start = start + 1;
    }
    let ghost rest = s@.skip(start as int);
    let mut end: usize = s.len();
    proof {
        assert(s@.subrange(start as int, end as int) == rest);
    }
    while end > start && s[end - 1].is_whitespace()
        invariant
            start <= end <= s.len(),
            rest == s@.skip(start as int),
            trim_end(s@.subrange(start as int, end as int)) == trim_end(rest),
        decreases end,
    {
        proof {
            assert(s@.subrange(start as int, end as int).drop_last() == s@.subrange(
                start as int,
                end - 1,
            ));
        }
        end = end - 1;
    }
    copy_range(s, start, end)
}

/// The characters `start..end` of `s`.
pub fn copy_range(s: &[char], start: usize, end: usize) -> (out: Vec<char>)
    requires
        start <= end <= s.len(),
    ensures
        out@ == s@.subrange(start as int, end as int),
{
    let mut out: Vec<char> = Vec::new();
    let mut i: usize = start;
    while i < end
        invariant
            start <= i <= end <= s.len(),
            out@ == s@.subrange(start as int, i as int),
        decreases end - i,
    {
        out.push(s[i]);
        i = i + 1;
    }
    out
}

/// Drops the white space at either end of a string.
pub fn trim(s: &str) -> (out: String)
    ensures
        out@ == trimmed(s@),
{
    let chars = chars_of(s);
    let kept = trim_chars(&chars);
    string_of(&kept)
}

/// `s` without the characters `c` that it ends with.
pub open spec fn without_trailing(s: Seq<char>, c: char) -> Seq<char>
    decreases s.len(),
{
    if s.len() > 0 && s.last() == c {
        without_trailing(s.drop_last(), c)
    } else {
        s
    }
}

/// Drops every `c` that the string ends with.
pub fn trim_trailing(s: &str, c: char) -> (out: String)
    ensures
        out@ == without_trailing(s@, c),
{
    let chars = chars_of(s);
    let mut end: usize = chars.len();
    proof {
        assert(chars@.take(end as int) == s@);
    }
    while end > 0 && chars[end - 1] == c
        invariant
            end <= chars.len(),
            without_trailing(chars@.take(end as int), c) == without_trailing(s@, c),
        decreases end,
    {
        proof {
            assert(chars@.take(end as int).drop_last() == chars@.take(end - 1));
        }
        end = end - 1;
    }
    let kept = copy_range(&chars, 0, end);
    proof {
        assert(kept@ == chars@.take(end as int));
    }
    string_of(&kept)
}

// ---------------------------------------------------------------------------
// Words
// ---------------------------------------------------------------------------

/// The number of characters before the first white space.
pub open spec fn word_len(s: Seq<char>) -> nat
    decreases s.len(),
{
    if s.len() == 0 || whitespace(s[0]) {
        0
    } else {
        1 + word_len(s.skip(1))
    }
}

/// The maximal runs of characters that are not white space, in order.
pub open spec fn words(s: Seq<char>) -> Seq<Seq<char>>
    decreases s.len(),
{
    if s.len() == 0 {
        Seq::empty()
    } else if whitespace(s[0]) {
        words(s.skip(1))
    } else {
        let n = word_len(s) as int;
        if 0 < n <= s.len() {
            seq![s.take(n)] + words(s.skip(n))
        } else {
            Seq::empty()
        }
    }
}

/// The characters before the first white space are no white space, and the one
/// behind them is.
pub proof fn lemma_word_len(s: Seq<char>)
    ensures
        word_len(s) <= s.len(),
        s.len() > 0 && !whitespace(s[0]) ==> word_len(s) > 0,
        forall|i: int| 0 <= i < word_len(s) ==> !whitespace(#[trigger] s[i]),
        word_len(s) < s.len() ==> whitespace(s[word_len(s) as int]),
    decreases s.len(),
{
    if s.len() > 0 && !whitespace(s[0]) {
        lemma_word_len(s.skip(1));
        assert forall|i: int| 0 <= i < word_len(s) implies !whitespace(#[trigger] s[i]) by {
            if i > 0 {
                assert(s[i] == s.skip(1)[i - 1]);
            }
        }
    }
}

/// The views of a list of words.
pub open spec fn word_views(list: Seq<Vec<char>>) -> Seq<Seq<char>> {
    list.map_values(|w: Vec<char>| w@)
}

/// Splits at white space.
pub fn split_words(s: &[char]) -> (out: Vec<Vec<char>>)
    ensures
        word_views(out@) == words(s@),
{
    let mut out: Vec<Vec<char>> = Vec::new();
    let mut i: usize = 0;
    proof {
        assert(s@.skip(0) == s@);
        assert(word_views(out@) + words(s@) == words(s@));
    }
    while i < s.len()
        invariant
            i <= s.len(),
            word_views(out@) + words(s@.skip(i as int)) == words(s@),
        decreases s.len() - i,
    {
        let ghost rest = s@.skip(i as int);
        if s[i].is_whitespace() {
            proof {
                assert(rest.skip(1) == s@.skip(i + 1));
            }
            i = i + 1;
        } else {
            let start = i;
            proof {
                lemma_word_len(rest);
                assert(rest.skip(0) == rest);
            }
            while i < s.len() && !s[i].is_whitespace()
                invariant
                    start <= i <= s.len(),
                    rest == s@.skip(start as int),
                    word_len(rest) == (i - start) + word_len(s@.skip(i as int)),
                decreases s.len() - i,
            {
                proof {
                    assert(s@.skip(i as int).skip(1) == s@.skip(i + 1));
                }
                i = i + 1;
            }
            proof {
                assert(word_len(rest) == i - start);
                assert(rest.take(i - start) == s@.subrange(start as int, i as int));
                assert(rest.skip(i - start) == s@.skip(i as int));
            }
            let ghost before = out@;
            let word = copy_range(s, start, i);
            out.push(word);
            proof {
                assert(word_views(out@) == word_views(before).push(word@));
                assert(word_views(out@) + words(s@.skip(i as int)) == word_views(before) + (
                seq![word@] + words(s@.skip(i as int))));
            }
        }
    }
    proof {
        assert(words(s@.skip(i as int)) == Seq::<Seq<char>>::empty());
        assert(word_views(out@) + Seq::<Seq<char>>::empty() == word_views(out@));
    }
    out
}

/// The parts with `sep` between each two of them.
pub open spec fn joined(parts: Seq<Seq<char>>, sep: Seq<char>) -> Seq<char>
    decreases parts.len(),
{
    if parts.len() == 0 {
        Seq::empty()
    } else if parts.len() == 1 {
        parts[0]
    } else {
        joined(parts.drop_last(), sep) + sep + parts.last()
    }
}

/// The words `from..` with one space between each two of them.
pub fn join_words(list: &Vec<Vec<char>>, from: usize) -> (out: String)
    requires
        from <= list.len(),
    ensures
        out@ == joined(word_views(list@).skip(from as int), seq![' ']),
{
    let mut out = String::new();
    let mut i: usize = from;
    let ghost all = word_views(list@).skip(from as int);
    while i < list.len()
        invariant
            from <= i <= list.len(),
            all == word_views(list@).skip(from as int),
            out@ == joined(all.take(i - from), seq![' ']),
        decreases list.len() - i,
    {
        let ghost before = out@;
        if i > from {
            out.push(' ');
        }
        let word = string_of(&list[i]);
        out.append(word.as_str());
        proof {
            let next = all.take(i - from + 1);
            assert(next.drop_last() == all.take(i - from));
            assert(next.last() == word@);
            if i > from {
                assert(out@ == before + seq![' '] + word@);
            } else {
                assert(out@ == word@);
            }
        }
        i = i + 1;
    }
    proof {
        assert(all.take(all.len() as int) == all);
    }
    out
}

/// Whether `w` is a word: not empty, and without white space.
pub open spec fn is_word(w: Seq<char>) -> bool {
    w.len() > 0 && forall|i: int| 0 <= i < w.len() ==> !whitespace(#[trigger] w[i])
}

proof fn lemma_word_len_is(s: Seq<char>, n: int)
    requires
        0 <= n <= s.len(),
        forall|i: int| 0 <= i < n ==> !whitespace(#[trigger] s[i]),
        n < s.len() ==> whitespace(s[n]),
    ensures
        word_len(s) == n,
{
    lemma_word_len(s);
    let m = word_len(s) as int;
    if m < n {
        assert(whitespace(s[m]));
    }
    if n < m {
        assert(!whitespace(s[n]));
    }
}

/// A word that follows a space is the last word.
proof fn lemma_word_behind(a: Seq<char>, w: Seq<char>)
    requires
        is_word(w),
    ensures
        words(a + seq![' '] + w) == words(a).push(w),
    decreases a.len(),
{
    let tail = seq![' '] + w;
    let all = a + seq![' '] + w;
    assert(all =~= a + tail);
    if a.len() == 0 {
        assert(all.skip(1) =~= w);
        lemma_word_len_is(w, w.len() as int);
        assert(w.take(w.len() as int) =~= w);
        assert(words(w.skip(w.len() as int)) =~= Seq::<Seq<char>>::empty());
        assert(words(w) =~= seq![w]);
        assert(whitespace(all[0]));
        assert(words(a).push(w) =~= seq![w]);
    } else if whitespace(a[0]) {
        lemma_word_behind(a.skip(1), w);
        assert(all.skip(1) =~= a.skip(1) + seq![' '] + w);
    } else {
        lemma_word_len(a);
        let n = word_len(a) as int;
        assert forall|i: int| 0 <= i < n implies !whitespace(#[trigger] all[i]) by {
            assert(all[i] == a[i]);
        }
        if n < a.len() {
            assert(all[n] == a[n]);
        } else {
            assert(all[n] == ' ');
        }
        lemma_word_len_is(all, n);
        lemma_word_behind(a.skip(n), w);
        assert(all.skip(n) =~= a.skip(n) + seq![' '] + w);
        assert(all.take(n) =~= a.take(n));
        assert(words(all) =~= words(a).push(w));
    }
}

/// Words that are joined by spaces are found again by splitting.
pub proof fn law_split_of_joined(parts: Seq<Seq<char>>)
    requires
        forall|i: int| 0 <= i < parts.len() ==> is_word(#[trigger] parts[i]),
    ensures
        words(joined(parts, seq![' '])) == parts,
    decreases parts.len(),
{
    if parts.len() == 1 {
        let w = parts[0];
        lemma_word_len_is(w, w.len() as int);
        assert(w.take(w.len() as int) =~= w);
        assert(words(w.skip(w.len() as int)) =~= Seq::<Seq<char>>::empty());
        assert(words(w) =~= parts);
    } else if parts.len() > 1 {
        let first = parts.drop_last();
        assert forall|i: int| 0 <= i < first.len() implies is_word(#[trigger] first[i]) by {
            assert(first[i] == parts[i]);
        }
        law_split_of_joined(first);
        lemma_word_behind(joined(first, seq![' ']), parts.last());
        assert(first.push(parts.last()) =~= parts);
    }
}

/// What splitting finds are words.
pub proof fn lemma_words_are_words(s: Seq<char>)
    ensures
        forall|i: int| 0 <= i < words(s).len() ==> is_word(#[trigger] words(s)[i]),
    decreases s.len(),
{
    if s.len() > 0 {
        if whitespace(s[0]) {
            lemma_words_are_words(s.skip(1));
            assert(words(s) == words(s.skip(1)));
        } else {
            lemma_word_len(s);
            let n = word_len(s) as int;
            lemma_words_are_words(s.skip(n));
            let first = s.take(n);
            assert forall|i: int| 0 <= i < first.len() implies !whitespace(#[trigger] first[i]) by {
                assert(first[i] == s[i]);
            }
            assert(words(s) == seq![first] + words(s.skip(n)));
            assert forall|i: int| 0 <= i < words(s).len() implies is_word(#[trigger] words(s)[i]) by {
                if i > 0 {
                    assert(words(s)[i] == words(s.skip(n))[i - 1]);
                }
            }
        }
    }
}

// ---------------------------------------------------------------------------
// Searching
// ---------------------------------------------------------------------------

/// Whether `part` stands in `s` at position `at`.
pub open spec fn occurs_at(s: Seq<char>, part: Seq<char>, at: int) -> bool {
    &&& 0 <= at
    &&& at + part.len() <= s.len()
    &&& s.subrange(at, at + part.len()) == part
}

/// Whether `part` stands anywhere in `s`.
pub open spec fn contains_text(s: Seq<char>, part: Seq<char>) -> bool {
    exists|at: int| occurs_at(s, part, at)
}

/// Whether `s` starts with `part`.
pub open spec fn has_prefix(s: Seq<char>, part: Seq<char>) -> bool {
    occurs_at(s, part, 0)
}

/// Whether `s` ends with `part`.
pub open spec fn has_suffix(s: Seq<char>, part: Seq<char>) -> bool {
    occurs_at(s, part, s.len() - part.len())
}

/// Whether `part` stands in `s` at position `at`.
pub fn matches_at(s: &[char], part: &[char], at: usize) -> (r: bool)
    ensures
        r == occurs_at(s@, part@, at as int),
{
    if at > s.len() || s.len() - at < part.len() {
        return false;
    }
    for i in 0..part.len()
        invariant
            at + part.len() <= s.len(),
            forall|k: int| 0 <= k < i ==> s@[at + k] == part@[k],
    {
        if s[at + i] != part[i] {
            proof {
                assert(s@.subrange(at as int, at + part@.len())[i as int] == s@[at + i]);
            }
            return false;
        }
    }
    proof {
        assert(s@.subrange(at as int, at + part@.len()) =~= part@);
    }
    true
}

/// Whether the string has `part` in it.
pub fn contains(s: &str, part: &str) -> (r: bool)
    ensures
        r == contains_text(s@, part@),
{
    let text = chars_of(s);
    let wanted = chars_of(part);
    let mut at: usize = 0;
    while at < text.len()
        invariant
            at <= text.len(),
            text@ == s@,
            wanted@ == part@,
            forall|k: int| 0 <= k < at ==> !occurs_at(s@, part@, k),
        decreases text.len() - at,
    {
        if matches_at(&text, &wanted, at) {
            return true;
        }
        at = at + 1;
    }
    let r = matches_at(&text, &wanted, at);
    proof {
        if !r {
            assert forall|k: int| !occurs_at(s@, part@, k) by {
                if occurs_at(s@, part@, k) {
                    assert(k <= s@.len());
                }
            }
        }
    }
    r
}

/// Whether the string starts with `part`.
pub fn starts_with(s: &str, part: &str) -> (r: bool)
    ensures
        r == has_prefix(s@, part@),
{
    let text = chars_of(s);
    let wanted = chars_of(part);
    matches_at(&text, &wanted, 0)
}

/// Whether the string ends with `part`.
pub fn ends_with(s: &str, part: &str) -> (r: bool)
    ensures
        r == has_suffix(s@, part@),
{
    let text = chars_of(s);
    let wanted = chars_of(part);
    text.len() >= wanted.len() && matches_at(&text, &wanted, text.len() - wanted.len())
}

/// What follows `part`, where the string starts with it.
pub fn strip_prefix(s: &str, part: &str) -> (out: Option<String>)
    ensures
        out is Some <==> has_prefix(s@, part@),
        out matches Some(rest) ==> rest@ == s@.skip(part@.len() as int),
{
    let text = chars_of(s);
    let wanted = chars_of(part);
    if matches_at(&text, &wanted, 0) {
        let rest = copy_range(&text, wanted.len(), text.len());
        Some(string_of(&rest))
    } else {
        None
    }
}

/// `s` with every occurrence of `part`, found from left to right, replaced.
pub open spec fn replaced(s: Seq<char>, part: Seq<char>, with: Seq<char>) -> Seq<char>
    decreases s.len(),
{
    if s.len() == 0 || part.len() == 0 {
        s
    } else if has_prefix(s, part) {
        with + replaced(s.skip(part.len() as int), part, with)
    } else {
        seq![s[0]] + replaced(s.skip(1), part, with)
    }
}

/// Replaces every occurrence of `part`, found from left to right.
pub fn replace(s: &str, part: &str, with: &str) -> (out: String)
    requires
        part@.len() > 0,
    ensures
        out@ == replaced(s@, part@, with@),
{
    let text = chars_of(s);
    let wanted = chars_of(part);
    let mut out = String::new();
    let mut at: usize = 0;
    proof {
        assert(text@.skip(0) == s@);
        assert(out@ + replaced(s@, part@, with@) == replaced(s@, part@, with@));
    }
    while at < text.len()
        invariant
            at <= text.len(),
            text@ == s@,
            wanted@ == part@,
            part@.len() > 0,
            out@ + replaced(s@.skip(at as int), part@, with@) == replaced(s@, part@, with@),
        decreases text.len() - at,
    {
        let ghost rest = s@.skip(at as int);
        let ghost before = out@;
        let found = matches_at(&text, &wanted, at);
        proof {
            if found {
                assert(rest.subrange(0, part@.len() as int) == part@);
            } else if has_prefix(rest, part@) {
                assert(s@.subrange(at as int, at + part@.len()) == part@);
            }
        }
        if found {
            out.append(with);
            at = at + wanted.len();
            proof {
                assert(rest.skip(part@.len() as int) == s@.skip(at as int));
                assert(out@ + replaced(s@.skip(at as int), part@, with@) == before + (with@
                    + replaced(s@.skip(at as int), part@, with@)));
            }
        } else {
            out.push(text[at]);
            at = at + 1;
            proof {
                assert(rest.skip(1) == s@.skip(at as int));
                assert(out@ + replaced(s@.skip(at as int), part@, with@) == before + (seq![rest[0]]
                    + replaced(s@.skip(at as int), part@, with@)));
            }
        }
    }
    proof {
        assert(out@ + s@.skip(at as int) == out@);
    }
    out
}

/// The position of the first `c` in `s`, or the length of `s`.
pub open spec fn first_index(s: Seq<char>, c: char) -> nat
    decreases s.len(),
{
    if s.len() == 0 || s[0] == c {
        0
    } else {
        1 + first_index(s.skip(1), c)
    }
}

/// Before the first `c` there is none.
pub proof fn lemma_first_index(s: Seq<char>, c: char)
    ensures
        first_index(s, c) <= s.len(),
        first_index(s, c) < s.len() ==> s[first_index(s, c) as int] == c,
        forall|i: int| 0 <= i < first_index(s, c) ==> s[i] != c,
    decreases s.len(),
{
    if s.len() > 0 && s[0] != c {
        lemma_first_index(s.skip(1), c);
        assert forall|i: int| 0 <= i < first_index(s, c) implies s[i] != c by {
            if i > 0 {
                assert(s[i] == s.skip(1)[i - 1]);
            }
        }
    }
}

/// The position of the first `c` at or after `from`, or the length of `s`.
pub fn find_from(s: &[char], c: char, from: usize) -> (at: usize)
    requires
        from <= s.len(),
    ensures
        from <= at <= s.len(),
        at == from + first_index(s@.skip(from as int), c),
{
    let mut at: usize = from;
    while at < s.len() && s[at] != c
        invariant
            from <= at <= s.len(),
            first_index(s@.skip(from as int), c) == (at - from) + first_index(
                s@.skip(at as int),
                c,
            ),
        decreases s.len() - at,
    {
        proof {
            assert(s@.skip(at as int).skip(1) == s@.skip(at + 1));
        }
        at = at + 1;
    }
    at
}

// ---------------------------------------------------------------------------
// Comparing
// ---------------------------------------------------------------------------

/// The order of strings: by the first character in which they differ, a proper
/// prefix first.
pub open spec fn text_before(a: Seq<char>, b: Seq<char>) -> bool
    decreases a.len(),
{
    if b.len() == 0 {
        false
    } else if a.len() == 0 {
        true
    } else if a[0] != b[0] {
        (a[0] as int) < (b[0] as int)
    } else {
        text_before(a.skip(1), b.skip(1))
    }
}

/// Of two strings exactly one comes before the other, unless they are the same.
pub proof fn lemma_text_order(a: Seq<char>, b: Seq<char>)
    ensures
        a == b ==> !text_before(a, b) && !text_before(b, a),
        a != b ==> text_before(a, b) != text_before(b, a),
    decreases a.len(),
{
    if a.len() > 0 && b.len() > 0 {
        lemma_text_order(a.skip(1), b.skip(1));
        if a[0] == b[0] {
            assert(a =~= seq![a[0]] + a.skip(1));
            assert(b =~= seq![b[0]] + b.skip(1));
        }
    } else if a.len() == 0 && b.len() == 0 {
        assert(a =~= b);
    }
}

/// The order of strings is transitive.
pub proof fn lemma_text_transitive(a: Seq<char>, b: Seq<char>, c: Seq<char>)
    requires
        text_before(a, b),
        text_before(b, c),
    ensures
        text_before(a, c),
    decreases a.len(),
{
    if a.len() > 0 && a[0] == b[0] && b[0] == c[0] {
        lemma_text_transitive(a.skip(1), b.skip(1), c.skip(1));
    }
}

/// Whether `a` comes before `b` in the order of strings.
pub fn before(a: &str, b: &str) -> (r: bool)
    ensures
        r == text_before(a@, b@),
{
    let left = chars_of(a);
    let right = chars_of(b);
    let mut i: usize = 0;
    proof {
        assert(left@.skip(0) == a@);
        assert(right@.skip(0) == b@);
    }
    while i < left.len() && i < right.len()
        invariant
            i <= left.len(),
            i <= right.len(),
            text_before(left@.skip(i as int), right@.skip(i as int)) == text_before(a@, b@),
        decreases left.len() - i,
    {
        if left[i] != right[i] {
            return left[i] < right[i];
        }
        proof {
            assert(left@.skip(i as int).skip(1) == left@.skip(i + 1));
            assert(right@.skip(i as int).skip(1) == right@.skip(i + 1));
        }
        i = i + 1;
    }
    i < right.len()
}

/// The lower case of an ASCII letter; any other character is itself.
pub open spec fn ascii_lower(c: char) -> char {
    if 'A' <= c <= 'Z' {
        ((c as u32) + 32) as char
    } else {
        c
    }
}

/// Gives the lower case of an ASCII letter.
pub fn to_ascii_lower(c: char) -> (r: char)
    ensures
        r == ascii_lower(c),
{
    if 'A' <= c && c <= 'Z' {
        ((c as u8) + 32) as char
    } else {
        c
    }
}

/// Whether two strings are the same but for the case of ASCII letters.
pub open spec fn same_ignoring_case(a: Seq<char>, b: Seq<char>) -> bool {
    a.map_values(|c: char| ascii_lower(c)) == b.map_values(|c: char| ascii_lower(c))
}

/// Whether two strings are the same but for the case of ASCII letters.
pub fn eq_ignore_ascii_case(a: &str, b: &str) -> (r: bool)
    ensures
        r == same_ignoring_case(a@, b@),
{
    let left = chars_of(a);
    let right = chars_of(b);
    let ghost lower = |c: char| ascii_lower(c);
    if left.len() != right.len() {
        proof {
            assert(a@.map_values(lower).len() != b@.map_values(lower).len());
        }
        return false;
    }
    for i in 0..left.len()
        invariant
            left.len() == right.len(),
            left@ == a@,
            right@ == b@,
            lower == (|c: char| ascii_lower(c)),
            forall|k: int| 0 <= k < i ==> ascii_lower(a@[k]) == ascii_lower(b@[k]),
    {
        if to_ascii_lower(left[i]) != to_ascii_lower(right[i]) {
            proof {
                assert(a@.map_values(lower)[i as int] != b@.map_values(lower)[i as int]);
            }
            return false;
        }
    }
    proof {
        assert(a@.map_values(lower) =~= b@.map_values(lower));
    }
    true
}

// ---------------------------------------------------------------------------
// Numbers
// ---------------------------------------------------------------------------

/// The character of a decimal digit.
pub open spec fn digit(d: int) -> char {
    (('0' as int) + d) as char
}

/// The decimal notation of a number.
pub open spec fn decimal(n: nat) -> Seq<char>
    decreases n,
{
    if n < 10 {
        seq![digit(n as int)]
    } else {
        decimal(n / 10).push(digit((n % 10) as int))
    }
}

/// The decimal notation of a number, with zeros before it up to `width`.
pub open spec fn padded(n: nat, width: nat) -> Seq<char> {
    let d = decimal(n);
    if d.len() < width {
        Seq::new((width - d.len()) as nat, |i: int| '0') + d
    } else {
        d
    }
}

fn push_decimal(out: &mut String, n: u64)
    ensures
        final(out)@ == old(out)@ + decimal(n as nat),
    decreases n,
{
    if n >= 10 {
        push_decimal(out, n / 10);
    }
    let c = (48u8 + (n % 10) as u8) as char;
    out.push(c);
    proof {
        assert(c == digit((n % 10) as int));
        assert(out@ =~= old(out)@ + decimal(n as nat));
    }
}

/// Writes a number in decimal.
pub fn to_decimal(n: u64) -> (out: String)
    ensures
        out@ == decimal(n as nat),
{
    let mut out = String::new();
    push_decimal(&mut out, n);
    out
}

/// Writes a number in decimal with at least `width` digits.
pub fn to_padded(n: u64, width: usize) -> (out: String)
    ensures
        out@ == padded(n as nat, width as nat),
{
    let digits = to_decimal(n);
    let len = digits.as_str().unicode_len();
    let mut out = String::new();
    let mut missing: usize = 0;
    if len < width {
        missing = width - len;
    }
    for i in 0..missing
        invariant
            out@ == Seq::new(i as nat, |k: int| '0'),
    {
        out.push('0');
        proof {
            assert(out@ =~= Seq::new((i + 1) as nat, |k: int| '0'));
        }
    }
    out.append(digits.as_str());
    proof {
        assert(out@ =~= padded(n as nat, width as nat));
    }
    out
}

/// The first `limit` characters.
pub fn take_chars(s: &str, limit: usize) -> (out: String)
    ensures
        out@ == if s@.len() <= limit { s@ } else { s@.take(limit as int) },
{
    let chars = chars_of(s);
    if chars.len() <= limit {
        string_of(&chars)
    } else {
        let kept = copy_range(&chars, 0, limit);
        proof {
            assert(kept@ == s@.take(limit as int));
        }
        string_of(&kept)
    }
}

// ---------------------------------------------------------------------------
// Laws
// ---------------------------------------------------------------------------

/// Whether there is nothing but white space in a text.
pub open spec fn only_white(s: Seq<char>) -> bool {
    forall|i: int| 0 <= i < s.len() ==> whitespace(#[trigger] s[i])
}

proof fn lemma_trim_start(s: Seq<char>) -> (a: int)
    ensures
        0 <= a <= s.len(),
        trim_start(s) == s.skip(a),
        forall|i: int| 0 <= i < a ==> whitespace(#[trigger] s[i]),
        a < s.len() ==> !whitespace(s[a]),
    decreases s.len(),
{
    if s.len() > 0 && whitespace(s[0]) {
        let rest = s.skip(1);
        let a = lemma_trim_start(rest);
        assert(rest.skip(a) =~= s.skip(a + 1));
        assert forall|i: int| 0 <= i < a + 1 implies whitespace(#[trigger] s[i]) by {
            if i > 0 {
                assert(s[i] == rest[i - 1]);
            }
        }
        if a < rest.len() {
            assert(s[a + 1] == rest[a]);
        }
        a + 1
    } else {
        assert(s.skip(0) =~= s);
        0
    }
}

proof fn lemma_trim_end(s: Seq<char>) -> (b: int)
    ensures
        0 <= b <= s.len(),
        trim_end(s) == s.take(b),
        forall|i: int| b <= i < s.len() ==> whitespace(#[trigger] s[i]),
        b > 0 ==> !whitespace(s[b - 1]),
    decreases s.len(),
{
    if s.len() > 0 && whitespace(s.last()) {
        let rest = s.drop_last();
        let b = lemma_trim_end(rest);
        assert(rest.take(b) =~= s.take(b));
        assert forall|i: int| b <= i < s.len() implies whitespace(#[trigger] s[i]) by {
            if i < s.len() - 1 {
                assert(s[i] == rest[i]);
            }
        }
        b
    } else {
        assert(s.take(s.len() as int) =~= s);
        s.len() as int
    }
}

/// Trimming takes white space away from both ends of a text and nothing else: the
/// rest starts and ends with something that is no white space, unless there is
/// nothing else in the text.
pub proof fn law_trimming(s: Seq<char>) -> (r: (int, int))
    ensures
        0 <= r.0 <= r.1 <= s.len(),
        trimmed(s) == s.subrange(r.0, r.1),
        forall|i: int| 0 <= i < r.0 || r.1 <= i < s.len() ==> whitespace(#[trigger] s[i]),
        r.0 < r.1 ==> !whitespace(s[r.0]) && !whitespace(s[r.1 - 1]),
        trimmed(s).len() == 0 <==> only_white(s),
{
    let a = lemma_trim_start(s);
    let rest = s.skip(a);
    let n = lemma_trim_end(rest);
    let b = a + n;
    assert(rest.take(n) =~= s.subrange(a, b));
    assert forall|i: int| 0 <= i < a || b <= i < s.len() implies whitespace(#[trigger] s[i]) by {
        if i >= b {
            assert(s[i] == rest[i - a]);
        }
    }
    if a < b {
        assert(rest[n - 1] == s[b - 1]);
        assert(!whitespace(s[a]));
    }
    (a, b)
}

/// Splitting at white space keeps everything else: the words one after the other
/// are the text without its white space.
pub proof fn law_words_keep_everything(s: Seq<char>)
    ensures
        words(s).flatten() == s.filter(|c: char| !whitespace(c)),
        forall|i: int| 0 <= i < words(s).len() ==> is_word(#[trigger] words(s)[i]),
    decreases s.len(),
{
    lemma_words_are_words(s);
    let p = |c: char| !whitespace(c);
    if s.len() == 0 {
        reveal(Seq::filter);
        assert(words(s).flatten() =~= s.filter(p));
    } else if whitespace(s[0]) {
        let rest = s.skip(1);
        law_words_keep_everything(rest);
        assert(s =~= seq![s[0]] + rest);
        Seq::filter_distributes_over_add(seq![s[0]], rest, p);
        lemma_filter_none(seq![s[0]], p);
        assert(s.filter(p) =~= rest.filter(p));
    } else {
        lemma_word_len(s);
        let n = word_len(s) as int;
        let rest = s.skip(n);
        let first = s.take(n);
        law_words_keep_everything(rest);
        assert(s =~= first + rest);
        Seq::filter_distributes_over_add(first, rest, p);
        lemma_filter_all(first, p);
        assert(words(s) == seq![first] + words(rest));
        assert(words(s).drop_first() =~= words(rest));
        assert(words(s).first() == first);
        assert(words(s).flatten() == first + words(rest).flatten());
    }
}

proof fn lemma_filter_none(s: Seq<char>, p: spec_fn(char) -> bool)
    requires
        forall|i: int| 0 <= i < s.len() ==> !p(#[trigger] s[i]),
    ensures
        s.filter(p) == Seq::<char>::empty(),
    decreases s.len(),
{
    reveal(Seq::filter);
    if s.len() > 0 {
        let first = s.drop_last();
        assert(forall|i: int| 0 <= i < first.len() ==> first[i] == s[i]);
        lemma_filter_none(first, p);
        assert(!p(s[s.len() - 1]));
    }
}

proof fn lemma_filter_all(s: Seq<char>, p: spec_fn(char) -> bool)
    requires
        forall|i: int| 0 <= i < s.len() ==> p(#[trigger] s[i]),
    ensures
        s.filter(p) == s,
    decreases s.len(),
{
    reveal(Seq::filter);
    if s.len() > 0 {
        let first = s.drop_last();
        assert(forall|i: int| 0 <= i < first.len() ==> first[i] == s[i]);
        lemma_filter_all(first, p);
        assert(p(s[s.len() - 1]));
        assert(first.push(s.last()) =~= s);
    }
}

/// Joined parts are the first part, and behind it the separator and the part for
/// each of the others.
pub proof fn law_joining(parts: Seq<Seq<char>>, sep: Seq<char>)
    requires
        parts.len() > 0,
    ensures
        joined(parts, sep) == parts.skip(1).fold_left(
            parts[0],
            |text: Seq<char>, part: Seq<char>| text + sep + part,
        ),
    decreases parts.len(),
{
    if parts.len() > 1 {
        law_joining(parts.drop_last(), sep);
        assert(parts.skip(1).drop_last() =~= parts.drop_last().skip(1));
        assert(parts.skip(1).last() == parts.last());
    } else {
        assert(parts.skip(1) =~= Seq::<Seq<char>>::empty());
    }
}

/// The decimal notation of a number stands for it: the digits, each with ten times
/// the weight of the next, make up the number, and only zero starts with a zero.
pub proof fn law_decimal_stands_for_its_number(n: nat)
    ensures
        decimal(n).len() > 0,
        forall|i: int| 0 <= i < decimal(n).len() ==> '0' <= #[trigger] decimal(n)[i] <= '9',
        decimal(n).fold_left(0int, |value: int, c: char| 10 * value + (c as int - '0' as int))
            == n,
        n > 0 ==> decimal(n)[0] != '0',
    decreases n,
{
    let value = |value: int, c: char| 10 * value + (c as int - '0' as int);
    let text = decimal(n);
    if n < 10 {
        assert(text.drop_last() =~= Seq::<char>::empty());
        assert(text.drop_last().fold_left(0int, value) == 0);
        assert(text.last() == digit(n as int));
        assert(text.fold_left(0int, value) == value(text.drop_last().fold_left(0int, value), text.last()));
    } else {
        let before = decimal(n / 10);
        law_decimal_stands_for_its_number(n / 10);
        assert(text.drop_last() =~= before);
        assert(text.last() == digit((n % 10) as int));
        assert(text.fold_left(0int, value) == value(before.fold_left(0int, value), text.last()));
        assert forall|i: int| 0 <= i < text.len() implies '0' <= #[trigger] text[i] <= '9' by {
            if i < before.len() {
                assert(text[i] == before[i]);
            }
        }
        assert(text[0] == before[0]);
    }
}

/// Padding puts zeros before the decimal notation until it is as wide as asked
/// for, and changes nothing where it is.
pub proof fn law_padding(n: nat, width: nat)
    ensures
        padded(n, width).len() == (if decimal(n).len() >= width {
            decimal(n).len()
        } else {
            width
        }),
        padded(n, width).skip(padded(n, width).len() - decimal(n).len()) == decimal(n),
        forall|i: int|
            0 <= i < padded(n, width).len() - decimal(n).len() ==> #[trigger] padded(n, width)[i]
                == '0',
{
    assert(padded(n, width).skip(padded(n, width).len() - decimal(n).len()) =~= decimal(n));
}

/// Two texts are the same but for case where each two letters at one place are
/// the same or one is the capital of the other.
pub proof fn law_case_is_ignored(a: Seq<char>, b: Seq<char>)
    ensures
        same_ignoring_case(a, b) <==> a.len() == b.len() && forall|i: int|
            0 <= i < a.len() ==> {
                ||| #[trigger] a[i] == b[i]
                ||| 'A' <= a[i] <= 'Z' && b[i] as int == a[i] as int + 32
                ||| 'A' <= b[i] <= 'Z' && a[i] as int == b[i] as int + 32
            },
{
    let lower = |c: char| ascii_lower(c);
    if same_ignoring_case(a, b) {
        assert(a.map_values(lower).len() == b.map_values(lower).len());
        assert forall|i: int| 0 <= i < a.len() implies {
            ||| #[trigger] a[i] == b[i]
            ||| 'A' <= a[i] <= 'Z' && b[i] as int == a[i] as int + 32
            ||| 'A' <= b[i] <= 'Z' && a[i] as int == b[i] as int + 32
        } by {
            assert(a.map_values(lower)[i] == b.map_values(lower)[i]);
        }
    }
    if a.len() == b.len() && forall|i: int|
        0 <= i < a.len() ==> {
            ||| #[trigger] a[i] == b[i]
            ||| 'A' <= a[i] <= 'Z' && b[i] as int == a[i] as int + 32
            ||| 'A' <= b[i] <= 'Z' && a[i] as int == b[i] as int + 32
        } {
        assert forall|i: int| 0 <= i < a.len() implies a.map_values(lower)[i] == b.map_values(
            lower,
        )[i] by {
            assert(a[i] == a[i]);
        }
        assert(a.map_values(lower) =~= b.map_values(lower));
    }
}

/// One text comes before another where it is a proper beginning of it, or where it
/// has the lower character at the first place at which they differ.
pub proof fn law_order_of_texts(a: Seq<char>, b: Seq<char>)
    ensures
        text_before(a, b) <==> exists|i: int|
            0 <= i <= a.len() && i < b.len() && #[trigger] a.take(i) == b.take(i) && (i == a.len()
                || (a[i] as int) < (b[i] as int)),
    decreases a.len(),
{
    if b.len() > 0 && a.len() > 0 && a[0] == b[0] {
        let x = a.skip(1);
        let y = b.skip(1);
        law_order_of_texts(x, y);
        if text_before(a, b) {
            let i = choose|i: int|
                0 <= i <= x.len() && i < y.len() && #[trigger] x.take(i) == y.take(i) && (i
                    == x.len() || (x[i] as int) < (y[i] as int));
            assert(a.take(i + 1) =~= seq![a[0]] + x.take(i));
            assert(b.take(i + 1) =~= seq![b[0]] + y.take(i));
            assert(a.take(i + 1) == b.take(i + 1));
            assert(i < x.len() ==> x[i] == a[i + 1]);
            assert(y[i] == b[i + 1]);
        }
        if exists|i: int|
            0 <= i <= a.len() && i < b.len() && #[trigger] a.take(i) == b.take(i) && (i == a.len()
                || (a[i] as int) < (b[i] as int)) {
            let i = choose|i: int|
                0 <= i <= a.len() && i < b.len() && #[trigger] a.take(i) == b.take(i) && (i
                    == a.len() || (a[i] as int) < (b[i] as int));
            assert(i > 0);
            assert(x.take(i - 1) =~= a.take(i).skip(1));
            assert(y.take(i - 1) =~= b.take(i).skip(1));
            assert(x.take(i - 1) == y.take(i - 1));
            assert(i < a.len() ==> a[i] == x[i - 1]);
            assert(b[i] == y[i - 1]);
        }
    } else {
        assert(a.take(0) =~= b.take(0));
        if exists|i: int|
            0 <= i <= a.len() && i < b.len() && #[trigger] a.take(i) == b.take(i) && (i == a.len()
                || (a[i] as int) < (b[i] as int)) {
            let i = choose|i: int|
                0 <= i <= a.len() && i < b.len() && #[trigger] a.take(i) == b.take(i) && (i
                    == a.len() || (a[i] as int) < (b[i] as int));
            if i > 0 {
                assert(a.take(i)[0] == a[0] && b.take(i)[0] == b[0]);
            }
        }
    }
}

/// What a text ends with is taken away as often as it is there: what is left does
/// not end with it, and what is lost is nothing else.
pub proof fn law_trailing_is_dropped(s: Seq<char>, c: char)
    ensures
        without_trailing(s, c).len() <= s.len(),
        without_trailing(s, c) == s.take(without_trailing(s, c).len() as int),
        without_trailing(s, c).len() > 0 ==> without_trailing(s, c).last() != c,
        forall|i: int| without_trailing(s, c).len() <= i < s.len() ==> #[trigger] s[i] == c,
    decreases s.len(),
{
    if s.len() > 0 && s.last() == c {
        let first = s.drop_last();
        law_trailing_is_dropped(first, c);
        let n = without_trailing(first, c).len() as int;
        assert(first.take(n) =~= s.take(n));
        assert forall|i: int| n <= i < s.len() implies #[trigger] s[i] == c by {
            if i < first.len() {
                assert(first[i] == s[i]);
            }
        }
    } else {
        assert(s.take(s.len() as int) =~= s);
    }
}

/// Replacing changes what is to be replaced, from left to right, and nothing else:
/// what stands before the first occurrence stays, the replacement follows, and the
/// rest is treated likewise.
pub proof fn law_replacing(a: Seq<char>, part: Seq<char>, b: Seq<char>, with: Seq<char>)
    requires
        part.len() > 0,
        forall|i: int| 0 <= i < a.len() ==> !#[trigger] occurs_at(a + part + b, part, i),
    ensures
        replaced(a + part + b, part, with) == a + with + replaced(b, part, with),
    decreases a.len(),
{
    let all = a + part + b;
    if a.len() == 0 {
        assert(all.subrange(0, part.len() as int) =~= part);
        assert(all.skip(part.len() as int) =~= b);
        assert(a + with + replaced(b, part, with) =~= with + replaced(b, part, with));
    } else {
        let rest = a.skip(1);
        let shorter = rest + part + b;
        assert(all.skip(1) =~= shorter);
        assert(!occurs_at(all, part, 0));
        assert forall|i: int| 0 <= i < rest.len() implies !#[trigger] occurs_at(
            shorter,
            part,
            i,
        ) by {
            assert(!occurs_at(all, part, i + 1));
            assert(shorter.subrange(i, i + part.len()) =~= all.subrange(i + 1, i + 1 + part.len()));
        }
        law_replacing(rest, part, b, with);
        assert(replaced(all, part, with) =~= a + with + replaced(b, part, with));
    }
}

/// A text without what is to be replaced stays as it is.
pub proof fn law_nothing_to_replace(s: Seq<char>, part: Seq<char>, with: Seq<char>)
    requires
        part.len() > 0,
        !contains_text(s, part),
    ensures
        replaced(s, part, with) == s,
    decreases s.len(),
{
    if s.len() > 0 {
        assert(!occurs_at(s, part, 0));
        let rest = s.skip(1);
        assert(!contains_text(rest, part)) by {
            if contains_text(rest, part) {
                let at = choose|at: int| occurs_at(rest, part, at);
                assert(rest.subrange(at, at + part.len()) =~= s.subrange(
                    at + 1,
                    at + 1 + part.len(),
                ));
                assert(occurs_at(s, part, at + 1));
            }
        }
        law_nothing_to_replace(rest, part, with);
        assert(replaced(s, part, with) =~= s);
    }
}

/// A text stands in another exactly where that is something, the text, and
/// something again; it starts or ends it where the first or the last is nothing.
pub proof fn law_finding(a: Seq<char>, part: Seq<char>, b: Seq<char>)
    ensures
        contains_text(a + part + b, part),
        has_prefix(part + b, part),
        has_suffix(a + part, part),
        forall|s: Seq<char>, at: int| #[trigger]
            occurs_at(s, part, at) ==> s == s.take(at) + part + s.skip(at + part.len()),
{
    assert((a + part + b).subrange(a.len() as int, a.len() as int + part.len()) =~= part);
    assert(occurs_at(a + part + b, part, a.len() as int));
    assert((part + b).subrange(0, part.len() as int) =~= part);
    assert((a + part).subrange(a.len() as int, a.len() as int + part.len()) =~= part);
    assert forall|s: Seq<char>, at: int| #[trigger] occurs_at(s, part, at) implies s == s.take(at)
        + part + s.skip(at + part.len()) by {
        let found = s.subrange(at, at + part.len());
        assert(s =~= s.take(at) + found + s.skip(at + part.len()));
    }
}

} // verus!
