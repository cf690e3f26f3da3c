use vstd::prelude::*;

verus! {

/// Unicode `White_Space`, the set `char::is_whitespace` accepts.
pub open spec fn is_ws(c: char) -> bool {
    ||| c == ' '
    ||| ('\t' <= c && c <= '\r')
    ||| c == '\u{85}'
    ||| c == '\u{A0}'
    ||| c == '\u{1680}'
    ||| ('\u{2000}' <= c && c <= '\u{200A}')
    ||| c == '\u{2028}'
    ||| c == '\u{2029}'
    ||| c == '\u{202F}'
    ||| c == '\u{205F}'
    ||| c == '\u{3000}'
}

/// `s` without its leading and trailing whitespace.
pub open spec fn trim_spec(s: Seq<char>) -> Seq<char>
    decreases s.len(),
{
    if s.len() > 0 && is_ws(s[0]) {
        trim_spec(s.drop_first())
    } else if s.len() > 0 && is_ws(s.last()) {
        trim_spec(s.drop_last())
    } else {
        s
    }
}

pub fn is_whitespace(c: char) -> (r: bool)
    ensures
        r == is_ws(c),
{
    c == ' ' || ('\t' <= c && c <= '\r') || c == '\u{85}' || c == '\u{A0}' || c == '\u{1680}'
        || ('\u{2000}' <= c && c <= '\u{200A}') || c == '\u{2028}' || c == '\u{2029}' || c
        == '\u{202F}' || c == '\u{205F}' || c == '\u{3000}'
}

/// `str::trim`.
pub fn trim(s: &str) -> (r: &str)
    ensures
        r@ == trim_spec(s@),
{
    let n = s.unicode_len();
    let mut i: usize = 0;
    assert(s@.subrange(0, n as int) =~= s@);
    while i < n && is_whitespace(s.get_char(i))
        invariant
            n == s@.len(),
            i <= n,
            trim_spec(s@) == trim_spec(s@.subrange(i as int, n as int)),
        decreases n - i,
    {
        assert(s@.subrange(i as int, n as int).drop_first() =~= s@.subrange(i + 1, n as int));
        i = i + 1;
    }
    let mut j: usize = n;
    while j > i && is_whitespace(s.get_char(j - 1))
        invariant
            n == s@.len(),
            i <= j <= n,
            i < j ==> !is_ws(s@[i as int]),
            trim_spec(s@) == trim_spec(s@.subrange(i as int, j as int)),
        decreases j - i,
    {
        assert(s@.subrange(i as int, j as int).drop_last() =~= s@.subrange(i as int, j - 1));
        j = j - 1;
    }
    s.substring_char(i, j)
}

/// Index of the first `c` in `s`.
pub open spec fn find_char_spec(s: Seq<char>, c: char) -> Option<int>
    decreases s.len(),
{
    if s.len() == 0 {
        None
    } else if s[0] == c {
        Some(0)
    } else {
        match find_char_spec(s.drop_first(), c) {
            Some(i) => Some(i + 1),
            None => None,
        }
    }
}

/// Index of the last `c` in `s`.
pub open spec fn rfind_char_spec(s: Seq<char>, c: char) -> Option<int>
    decreases s.len(),
{
    if s.len() == 0 {
        None
    } else if s.last() == c {
        Some(s.len() - 1)
    } else {
        rfind_char_spec(s.drop_last(), c)
    }
}

/// `pat` occurs in `s` at index `i`.
pub open spec fn occurs_at(s: Seq<char>, pat: Seq<char>, i: int) -> bool {
    0 <= i && i + pat.len() <= s.len() && s.subrange(i, i + pat.len()) == pat
}

/// Index of the first occurrence of `pat` in `s`.
pub open spec fn find_str_spec(s: Seq<char>, pat: Seq<char>) -> Option<int>
    decreases s.len(),
{
    if pat.len() == 0 {
        Some(0)
    } else if s.len() < pat.len() {
        None
    } else if s.subrange(0, pat.len() as int) == pat {
        Some(0)
    } else {
        match find_str_spec(s.drop_first(), pat) {
            Some(i) => Some(i + 1),
            None => None,
        }
    }
}

/// Index of the last occurrence of `pat` in `s`.
pub open spec fn rfind_str_spec(s: Seq<char>, pat: Seq<char>) -> Option<int>
    decreases s.len(),
{
    if s.len() < pat.len() {
        None
    } else if s.subrange(s.len() - pat.len(), s.len() as int) == pat {
        Some(s.len() - pat.len())
    } else if s.len() == 0 {
        None
    } else {
        rfind_str_spec(s.drop_last(), pat)
    }
}

pub proof fn lemma_find_char(s: Seq<char>, c: char)
    ensures
        find_char_spec(s, c) matches Some(i) ==> 0 <= i < s.len() && s[i] == c && forall|k: int|
            0 <= k < i ==> s[k] != c,
        find_char_spec(s, c) is None ==> forall|k: int| 0 <= k < s.len() ==> s[k] != c,
    decreases s.len(),
{
    if s.len() > 0 && s[0] != c {
        lemma_find_char(s.drop_first(), c);
        assert forall|k: int| 1 <= k < s.len() implies s[k] == s.drop_first()[k - 1] by {}
    }
}

pub proof fn lemma_rfind_char(s: Seq<char>, c: char)
    ensures
        rfind_char_spec(s, c) matches Some(i) ==> 0 <= i < s.len() && s[i] == c && forall|k: int|
            i < k < s.len() ==> s[k] != c,
        rfind_char_spec(s, c) is None ==> forall|k: int| 0 <= k < s.len() ==> s[k] != c,
    decreases s.len(),
{
    if s.len() > 0 && s.last() != c {
        lemma_rfind_char(s.drop_last(), c);
        assert forall|k: int| 0 <= k < s.len() - 1 implies s[k] == s.drop_last()[k] by {}
    }
}

proof fn lemma_find_char_at(s: Seq<char>, c: char, i: int)
    requires
        0 <= i < s.len(),
        s[i] == c,
        forall|k: int| 0 <= k < i ==> s[k] != c,
    ensures
        find_char_spec(s, c) == Some(i),
{
    lemma_find_char(s, c);
}

proof fn lemma_rfind_char_at(s: Seq<char>, c: char, i: int)
    requires
        0 <= i < s.len(),
        s[i] == c,
        forall|k: int| i < k < s.len() ==> s[k] != c,
    ensures
        rfind_char_spec(s, c) == Some(i),
{
    lemma_rfind_char(s, c);
}

proof fn lemma_find_str_at(s: Seq<char>, pat: Seq<char>, i: int)
    requires
        occurs_at(s, pat, i),
        forall|k: int| 0 <= k < i ==> !occurs_at(s, pat, k),
    ensures
        find_str_spec(s, pat) == Some(i),
{
    lemma_find_str(s, pat);
}

proof fn lemma_rfind_str_at(s: Seq<char>, pat: Seq<char>, i: int)
    requires
        occurs_at(s, pat, i),
        forall|k: int| i < k ==> !occurs_at(s, pat, k),
    ensures
        rfind_str_spec(s, pat) == Some(i),
{
    lemma_rfind_str(s, pat);
}

pub proof fn lemma_find_str(s: Seq<char>, pat: Seq<char>)
    ensures
        find_str_spec(s, pat) matches Some(i) ==> occurs_at(s, pat, i) && forall|k: int|
            0 <= k < i ==> !occurs_at(s, pat, k),
        find_str_spec(s, pat) is None ==> forall|k: int| !occurs_at(s, pat, k),
    decreases s.len(),
{
    if pat.len() == 0 {
        assert(s.subrange(0, 0) =~= pat);
    } else if s.len() < pat.len() {
    } else if s.subrange(0, pat.len() as int) == pat {
    } else {
        let t = s.drop_first();
        lemma_find_str(t, pat);
        assert forall|k: int| 1 <= k implies occurs_at(s, pat, k) == occurs_at(t, pat, k - 1) by {
            if 0 <= k - 1 && k - 1 + pat.len() <= t.len() {
                assert(s.subrange(k, k + pat.len()) =~= t.subrange(k - 1, k - 1 + pat.len()));
            }
        }
    }
}

pub proof fn lemma_rfind_str(s: Seq<char>, pat: Seq<char>)
    ensures
        rfind_str_spec(s, pat) matches Some(i) ==> occurs_at(s, pat, i) && forall|k: int|
            i < k ==> !occurs_at(s, pat, k),
        rfind_str_spec(s, pat) is None ==> forall|k: int| !occurs_at(s, pat, k),
    decreases s.len(),
{
    if s.len() < pat.len() {
    } else if s.subrange(s.len() - pat.len(), s.len() as int) == pat {
    } else if s.len() == 0 {
    } else {
        let t = s.drop_last();
        lemma_rfind_str(t, pat);
        assert forall|k: int| k + pat.len() < s.len() implies occurs_at(s, pat, k) == occurs_at(t, pat, k) by {
            if 0 <= k {
                assert(s.subrange(k, k + pat.len()) =~= t.subrange(k, k + pat.len()));
            }
        }
    }
}

/// The optional index as a mathematical integer.
pub open spec fn opt_int(o: Option<usize>) -> Option<int> {
    match o {
        Some(i) => Some(i as int),
        None => None,
    }
}

/// `str::find` with a `char` pattern, as an index of characters.
pub fn find_char(s: &str, c: char) -> (r: Option<usize>)
    ensures
        opt_int(r) == find_char_spec(s@, c),
{
    proof { lemma_find_char(s@, c); }
    let n = s.unicode_len();
    let mut i: usize = 0;
    while i < n
        invariant
            n == s@.len(),
            i <= n,
            forall|k: int| 0 <= k < i ==> s@[k] != c,
        decreases n - i,
    {
        if s.get_char(i) == c {
            proof { lemma_find_char_at(s@, c, i as int); }
            return Some(i);
        }
        i = i + 1;
    }
    None
}

/// `str::rfind` with a `char` pattern, as an index of characters.
pub fn rfind_char(s: &str, c: char) -> (r: Option<usize>)
    ensures
        opt_int(r) == rfind_char_spec(s@, c),
{
    proof { lemma_rfind_char(s@, c); }
    let n = s.unicode_len();
    let mut i: usize = n;
    while i > 0
        invariant
            n == s@.len(),
            i <= n,
            forall|k: int| i <= k < n ==> s@[k] != c,
        decreases i,
    {
        if s.get_char(i - 1) == c {
            proof { lemma_rfind_char_at(s@, c, i - 1); }
            return Some(i - 1);
        }
        i = i - 1;
    }
    None
}

/// Whether `pat` occurs in `s` at character index `i`.
pub fn occurs_at_exec(s: &str, pat: &str, i: usize) -> (r: bool)
    ensures
        r == occurs_at(s@, pat@, i as int),
{
    let n = s.unicode_len();
    let m = pat.unicode_len();
    if i > n || m > n - i {
        return false;
    }
    let mut k: usize = 0;
    while k < m
        invariant
            n == s@.len(),
            m == pat@.len(),
            i + m <= n,
            k <= m,
            forall|j: int| 0 <= j < k ==> s@[i + j] == pat@[j],
        decreases m - k,
    {
        if s.get_char(i + k) != pat.get_char(k) {
            assert(s@.subrange(i as int, i + m)[k as int] != pat@[k as int]);
            return false;
        }
        k = k + 1;
    }
    assert(s@.subrange(i as int, i + m) =~= pat@);
    true
}

/// `str::find` with a string pattern, as an index of characters.
pub fn find_str(s: &str, pat: &str) -> (r: Option<usize>)
    ensures
        opt_int(r) == find_str_spec(s@, pat@),
{
    proof { lemma_find_str(s@, pat@); }
    let n = s.unicode_len();
    let m = pat.unicode_len();
    if m > n {
        return None;
    }
    if m == 0 {
        assert(occurs_at(s@, pat@, 0)) by { assert(s@.subrange(0, 0) =~= pat@); }
        proof { lemma_find_str_at(s@, pat@, 0); }
        return Some(0);
    }
    let mut i: usize = 0;
    while i <= n - m
        invariant
            n == s@.len(),
            m == pat@.len(),
            1 <= m <= n,
            i <= n - m + 1,
            forall|k: int| 0 <= k < i ==> !occurs_at(s@, pat@, k),
        decreases n - m + 1 - i,
    {
        if occurs_at_exec(s, pat, i) {
            proof { lemma_find_str_at(s@, pat@, i as int); }
            return Some(i);
        }
        i = i + 1;
    }
    None
}

/// Start of the last occurrence of `pat` in `s`, as an index of characters.
pub fn rfind_str(s: &str, pat: &str) -> (r: Option<usize>)
    ensures
        opt_int(r) == rfind_str_spec(s@, pat@),
{
    proof { lemma_rfind_str(s@, pat@); }
    let n = s.unicode_len();
    let m = pat.unicode_len();
    if m > n {
        return None;
    }
    if m == 0 {
        assert(occurs_at(s@, pat@, n as int)) by { assert(s@.subrange(n as int, n as int) =~= pat@); }
        proof { lemma_rfind_str_at(s@, pat@, n as int); }
        return Some(n);
    }
    let mut i: usize = n - m + 1;
    while i > 0
        invariant
            n == s@.len(),
            m == pat@.len(),
            m <= n,
            i <= n - m + 1,
            forall|k: int| i <= k ==> !occurs_at(s@, pat@, k),
        decreases i,
    {
        if occurs_at_exec(s, pat, i - 1) {
            proof { lemma_rfind_str_at(s@, pat@, i - 1); }
            return Some(i - 1);
        }
        i = i - 1;
    }
    None
}

/// `s` starts with `p`.
pub open spec fn starts_with_spec(s: Seq<char>, p: Seq<char>) -> bool {
    p.len() <= s.len() && s.subrange(0, p.len() as int) == p
}

/// `s` ends with `p`.
pub open spec fn ends_with_spec(s: Seq<char>, p: Seq<char>) -> bool {
    p.len() <= s.len() && s.subrange(s.len() - p.len(), s.len() as int) == p
}

/// `str::split_once` around the first `c`.
pub open spec fn split_once_spec(s: Seq<char>, c: char) -> Option<(Seq<char>, Seq<char>)> {
    match find_char_spec(s, c) {
        Some(i) => Some((s.subrange(0, i), s.subrange(i + 1, s.len() as int))),
        None => None,
    }
}

/// `str::rsplit_once` around the last `c`.
pub open spec fn rsplit_once_spec(s: Seq<char>, c: char) -> Option<(Seq<char>, Seq<char>)> {
    match rfind_char_spec(s, c) {
        Some(i) => Some((s.subrange(0, i), s.subrange(i + 1, s.len() as int))),
        None => None,
    }
}

/// The pieces of `s` between the occurrences of `c`, as `str::split` yields them.
pub open spec fn split_spec(s: Seq<char>, c: char) -> Seq<Seq<char>>
    decreases s.len(),
{
    match find_char_spec(s, c) {
        Some(i) => if 0 <= i < s.len() {
            seq![s.subrange(0, i)] + split_spec(s.subrange(i + 1, s.len() as int), c)
        } else {
            seq![s]
        },
        None => seq![s],
    }
}

/// The elements of `parts` with `sep` between each two neighbours.
pub open spec fn join_spec(parts: Seq<Seq<char>>, sep: Seq<char>) -> Seq<char>
    decreases parts.len(),
{
    if parts.len() == 0 {
        Seq::empty()
    } else if parts.len() == 1 {
        parts[0]
    } else {
        join_spec(parts.drop_last(), sep) + sep + parts.last()
    }
}

/// A line without the carriage return that ended it.
pub open spec fn strip_cr(l: Seq<char>) -> Seq<char> {
    if l.len() > 0 && l.last() == '\r' {
        l.drop_last()
    } else {
        l
    }
}

/// The lines of `s` as `str::lines` yields them.
pub open spec fn lines_spec(s: Seq<char>) -> Seq<Seq<char>>
    decreases s.len(),
{
    if s.len() == 0 {
        Seq::empty()
    } else {
        match find_char_spec(s, '\n') {
            Some(i) => if 0 <= i < s.len() {
                seq![strip_cr(s.subrange(0, i))] + lines_spec(s.subrange(i + 1, s.len() as int))
            } else {
                seq![s]
            },
            None => seq![s],
        }
    }
}

/// `s` with every `from` turned into `to`.
pub open spec fn replace_char_spec(s: Seq<char>, from: char, to: char) -> Seq<char> {
    s.map_values(|x: char| if x == from { to } else { x })
}

/// The views of a sequence of string slices.
pub open spec fn strs_view(v: Seq<&str>) -> Seq<Seq<char>> {
    v.map_values(|x: &str| x@)
}

/// `String::push`.
#[verifier::external_body]
pub fn push_char(s: &mut String, c: char)
    ensures
        final(s)@ == old(s)@.push(c),
{
    s.push(c)
}

/// `str::starts_with` with a string pattern.
pub fn starts_with(s: &str, p: &str) -> (r: bool)
    ensures
        r == starts_with_spec(s@, p@),
{
    let b = occurs_at_exec(s, p, 0);
    assert(b == starts_with_spec(s@, p@));
    b
}

/// `str::ends_with` with a string pattern.
pub fn ends_with(s: &str, p: &str) -> (r: bool)
    ensures
        r == ends_with_spec(s@, p@),
{
    let n = s.unicode_len();
    let m = p.unicode_len();
    if m > n {
        return false;
    }
    occurs_at_exec(s, p, n - m)
}

/// `str::strip_prefix` with a string pattern.
pub fn strip_prefix<'a>(s: &'a str, p: &str) -> (r: Option<&'a str>)
    ensures
        r is Some <==> starts_with_spec(s@, p@),
        r matches Some(t) ==> t@ == s@.subrange(p@.len() as int, s@.len() as int),
{
    if starts_with(s, p) {
        Some(s.substring_char(p.unicode_len(), s.unicode_len()))
    } else {
        None
    }
}

/// `str::split_once` with a `char` pattern.
pub fn split_once<'a>(s: &'a str, c: char) -> (r: Option<(&'a str, &'a str)>)
    ensures
        match r {
            Some((a, b)) => split_once_spec(s@, c) == Some((a@, b@)),
            None => split_once_spec(s@, c) is None,
        },
{
    proof { lemma_find_char(s@, c); }
    let n = s.unicode_len();
    match find_char(s, c) {
        Some(i) => Some((s.substring_char(0, i), s.substring_char(i + 1, n))),
        None => None,
    }
}

/// `str::rsplit_once` with a `char` pattern.
pub fn rsplit_once<'a>(s: &'a str, c: char) -> (r: Option<(&'a str, &'a str)>)
    ensures
        match r {
            Some((a, b)) => rsplit_once_spec(s@, c) == Some((a@, b@)),
            None => rsplit_once_spec(s@, c) is None,
        },
{
    proof { lemma_rfind_char(s@, c); }
    let n = s.unicode_len();
    match rfind_char(s, c) {
        Some(i) => Some((s.substring_char(0, i), s.substring_char(i + 1, n))),
        None => None,
    }
}

/// `str::split` with a `char` pattern, each piece owned.
pub fn split(s: &str, c: char) -> (r: Vec<String>)
    ensures
        r.deep_view() == split_spec(s@, c),
{
    let n = s.unicode_len();
    let mut r: Vec<String> = Vec::new();
    let mut start: usize = 0;
    assert(s@.subrange(0, n as int) =~= s@);
    assert(r.deep_view() + split_spec(s@, c) =~= split_spec(s@, c));
    loop
        invariant
            n == s@.len(),
            start <= n,
            r.deep_view() + split_spec(s@.subrange(start as int, n as int), c) == split_spec(s@, c),
        decreases n - start,
    {
        let rest = s.substring_char(start, n);
        proof { lemma_find_char(rest@, c); }
        match find_char(rest, c) {
            Some(i) => {
                let piece = s.substring_char(start, start + i).to_owned();
                proof {
                    assert(rest@.subrange(0, i as int) =~= piece@);
                    assert(rest@.subrange(i + 1, rest@.len() as int) =~= s@.subrange(start + i + 1, n as int));
                    assert(r.deep_view().push(piece@) + split_spec(s@.subrange(start + i + 1, n as int), c)
                        =~= r.deep_view() + split_spec(rest@, c));
                }
                r.push(piece);
                start = start + i + 1;
            },
            None => {
                let piece = rest.to_owned();
                r.push(piece);
                return r;
            },
        }
    }
}

/// `Vec<String>::join`.
pub fn join(parts: &Vec<String>, sep: &str) -> (r: String)
    ensures
        r@ == join_spec(parts.deep_view(), sep@),
{
    let mut r = String::new();
    let mut i: usize = 0;
    while i < parts.len()
        invariant
            i <= parts.len(),
            r@ == join_spec(parts.deep_view().subrange(0, i as int), sep@),
        decreases parts.len() - i,
    {
        let ghost before = parts.deep_view().subrange(0, i as int);
        if i > 0 {
            r.append(sep);
        }
        r.append(parts[i].as_str());
        proof {
            let after = parts.deep_view().subrange(0, i + 1);
            assert(after.drop_last() =~= before);
            if i == 0 {
                assert(r@ =~= after[0]);
            }
        }
        i = i + 1;
    }
    assert(parts.deep_view().subrange(0, parts.len() as int) =~= parts.deep_view());
    r
}

/// `str::lines`.
pub fn lines<'a>(s: &'a str) -> (r: Vec<&'a str>)
    ensures
        strs_view(r@) == lines_spec(s@),
{
    let n = s.unicode_len();
    let mut r: Vec<&'a str> = Vec::new();
    let mut start: usize = 0;
    assert(s@.subrange(0, n as int) =~= s@);
    assert(strs_view(r@) + lines_spec(s@) =~= lines_spec(s@));
    while start < n
        invariant
            n == s@.len(),
            start <= n,
            strs_view(r@) + lines_spec(s@.subrange(start as int, n as int)) == lines_spec(s@),
        decreases n - start,
    {
        let rest = s.substring_char(start, n);
        proof { lemma_find_char(rest@, '\n'); }
        let (end, next) = match find_char(rest, '\n') {
            Some(i) => (start + i, start + i + 1),
            None => (n, n),
        };
        let mut line_end = end;
        if line_end > start && s.get_char(line_end - 1) == '\r' && end < n {
            line_end = line_end - 1;
        }
        let line = s.substring_char(start, line_end);
        proof {
            let old_r = strs_view(r@);
            assert(strs_view(r@.push(line)) =~= old_r.push(line@));
            match find_char_spec(rest@, '\n') {
                Some(i) => {
                    assert(rest@.subrange(i + 1, rest@.len() as int) =~= s@.subrange(next as int, n as int));
                    assert(line@ =~= strip_cr(rest@.subrange(0, i)));
                    assert(old_r.push(line@) + lines_spec(s@.subrange(next as int, n as int))
                        =~= old_r + lines_spec(rest@));
                },
                None => {
                    assert(line@ =~= rest@);
                    assert(s@.subrange(n as int, n as int) =~= Seq::<char>::empty());
                    assert(old_r.push(line@) + lines_spec(s@.subrange(next as int, n as int))
                        =~= old_r + lines_spec(rest@));
                },
            }
        }
        r.push(line);
        start = next;
    }
    r
}

/// `s` with every `from` replaced by `to`.
pub fn replace_char(s: &str, from: char, to: char) -> (r: String)
    ensures
        r@ == replace_char_spec(s@, from, to),
{
    let n = s.unicode_len();
    let mut r = String::new();
    let mut i: usize = 0;
    while i < n
        invariant
            n == s@.len(),
            i <= n,
            r@ == replace_char_spec(s@.subrange(0, i as int), from, to),
        decreases n - i,
    {
        let c = s.get_char(i);
        if c == from {
            push_char(&mut r, to);
        } else {
            push_char(&mut r, c);
        }
        assert(replace_char_spec(s@.subrange(0, i + 1), from, to) =~= replace_char_spec(
            s@.subrange(0, i as int),
            from,
            to,
        ).push(if c == from { to } else { c }));
        i = i + 1;
    }
    assert(s@.subrange(0, n as int) =~= s@);
    r
}

pub proof fn lemma_split_nonempty(s: Seq<char>, c: char)
    ensures
        split_spec(s, c).len() >= 1,
    decreases s.len(),
{
    lemma_find_char(s, c);
    if let Some(i) = find_char_spec(s, c) {
        lemma_split_nonempty(s.subrange(i + 1, s.len() as int), c);
    }
}

/// Joining with `sep` after putting `a` in front of a non-empty list puts `a` and `sep` in front.
pub proof fn lemma_join_prepend(a: Seq<char>, l: Seq<Seq<char>>, sep: Seq<char>)
    requires
        l.len() >= 1,
    ensures
        join_spec(seq![a] + l, sep) == a + sep + join_spec(l, sep),
    decreases l.len(),
{
    let al = seq![a] + l;
    if l.len() == 1 {
        assert(al.drop_last() =~= seq![a]);
        assert(join_spec(l, sep) == l[0]);
        assert(join_spec(seq![a], sep) == a);
        assert(join_spec(al, sep) == join_spec(seq![a], sep) + sep + al.last());
    } else {
        lemma_join_prepend(a, l.drop_last(), sep);
        assert(al.drop_last() =~= seq![a] + l.drop_last());
        assert(al.last() == l.last());
        assert(join_spec(al, sep) == join_spec(al.drop_last(), sep) + sep + al.last());
        assert(join_spec(l, sep) == join_spec(l.drop_last(), sep) + sep + l.last());
        assert(join_spec(al, sep) =~= a + sep + join_spec(l, sep));
    }
}

/// Joining with `sep` after pushing `x` onto a non-empty list appends `sep` and `x`.
pub proof fn lemma_join_push(l: Seq<Seq<char>>, x: Seq<char>, sep: Seq<char>)
    requires
        l.len() >= 1,
    ensures
        join_spec(l.push(x), sep) == join_spec(l, sep) + sep + x,
{
    assert(l.push(x).drop_last() =~= l);
}

/// Splitting at `c` and joining the pieces with `c` gives the string back.
pub proof fn lemma_join_split(s: Seq<char>, c: char)
    ensures
        join_spec(split_spec(s, c), seq![c]) == s,
    decreases s.len(),
{
    lemma_find_char(s, c);
    match find_char_spec(s, c) {
        Some(i) => {
            let rest = s.subrange(i + 1, s.len() as int);
            lemma_join_split(rest, c);
            lemma_split_nonempty(rest, c);
            lemma_join_prepend(s.subrange(0, i), split_spec(rest, c), seq![c]);
            assert(s =~= s.subrange(0, i) + seq![c] + rest);
        },
        None => {},
    }
}

/// What `rsplit_once` cuts off is put back by joining the parts with `c`.
pub proof fn lemma_rsplit_once(s: Seq<char>, c: char)
    ensures
        rsplit_once_spec(s, c) matches Some((a, b)) ==> s == a + seq![c] + b && forall|k: int|
            0 <= k < b.len() ==> b[k] != c,
        rsplit_once_spec(s, c) is None ==> forall|k: int| 0 <= k < s.len() ==> s[k] != c,
{
    lemma_rfind_char(s, c);
    if let Some(i) = rfind_char_spec(s, c) {
        assert(s =~= s.subrange(0, i) + seq![c] + s.subrange(i + 1, s.len() as int));
    }
}

/// Whether two strings hold the same characters.
pub fn str_eq(a: &str, b: &str) -> (r: bool)
    ensures
        r == (a@ == b@),
{
    let n = a.unicode_len();
    if n != b.unicode_len() {
        return false;
    }
    let mut i: usize = 0;
    while i < n
        invariant
            n == a@.len(),
            n == b@.len(),
            i <= n,
            forall|k: int| 0 <= k < i ==> a@[k] == b@[k],
        decreases n - i,
    {
        if a.get_char(i) != b.get_char(i) {
            return false;
        }
        i = i + 1;
    }
    assert(a@ =~= b@);
    true
}

pub proof fn lemma_split_len(s: Seq<char>, c: char)
    ensures
        split_spec(s, c).len() <= s.len() + 1,
    decreases s.len(),
{
    lemma_find_char(s, c);
    if let Some(i) = find_char_spec(s, c) {
        lemma_split_len(s.subrange(i + 1, s.len() as int), c);
    }
}

pub proof fn lemma_trim_len(s: Seq<char>)
    ensures
        trim_spec(s).len() <= s.len(),
    decreases s.len(),
{
    if s.len() > 0 && is_ws(s[0]) {
        lemma_trim_len(s.drop_first());
    } else if s.len() > 0 && is_ws(s.last()) {
        lemma_trim_len(s.drop_last());
    }
}

/// `c` takes one byte in UTF-8.
pub open spec fn is_ascii_char(c: char) -> bool {
    (c as u32) < 128
}

/// No piece of `split_spec(s, c)` holds `c`.
pub proof fn lemma_split_pieces(s: Seq<char>, c: char)
    ensures
        forall|k: int, j: int|
            0 <= k < split_spec(s, c).len() && 0 <= j < split_spec(s, c)[k].len() ==> #[trigger] split_spec(
                s,
                c,
            )[k][j] != c,
    decreases s.len(),
{
    lemma_find_char(s, c);
    if let Some(i) = find_char_spec(s, c) {
        let rest = s.subrange(i + 1, s.len() as int);
        lemma_split_pieces(rest, c);
        let sp = split_spec(s, c);
        assert(sp == seq![s.subrange(0, i)] + split_spec(rest, c));
        assert forall|k: int, j: int| 0 <= k < sp.len() && 0 <= j < sp[k].len() implies #[trigger] sp[k][j] != c by {
            if k > 0 {
                assert(sp[k] == split_spec(rest, c)[k - 1]);
            } else {
                assert(sp[0][j] == s[j]);
            }
        }
    }
}

/// Pieces that do not hold `c`, joined by `c`, split back into themselves.
pub proof fn lemma_split_join(parts: Seq<Seq<char>>, c: char)
    requires
        parts.len() >= 1,
        forall|k: int, j: int| 0 <= k < parts.len() && 0 <= j < parts[k].len() ==> #[trigger] parts[k][j] != c,
    ensures
        split_spec(join_spec(parts, seq![c]), c) == parts,
    decreases parts.len(),
{
    let p0 = parts[0];
    if parts.len() == 1 {
        lemma_find_char(p0, c);
        assert(forall|j: int| 0 <= j < p0.len() ==> p0[j] != c);
        assert(split_spec(p0, c) == seq![p0]);
        assert(parts =~= seq![p0]);
    } else {
        let rest = parts.drop_first();
        assert forall|k: int, j: int| 0 <= k < rest.len() && 0 <= j < rest[k].len() implies #[trigger] rest[k][j] != c by {
            assert(rest[k] == parts[k + 1]);
        }
        lemma_split_join(rest, c);
        assert(parts =~= seq![p0] + rest);
        lemma_join_prepend(p0, rest, seq![c]);
        let r = join_spec(rest, seq![c]);
        let whole = p0 + seq![c] + r;
        lemma_find_char(whole, c);
        assert(whole[p0.len() as int] == c);
        assert forall|k: int| 0 <= k < p0.len() implies whole[k] != c by {
            assert(whole[k] == p0[k]);
        }
        assert(find_char_spec(whole, c) == Some(p0.len() as int));
        assert(whole.subrange(0, p0.len() as int) =~= p0);
        assert(whole.subrange(p0.len() + 1 as int, whole.len() as int) =~= r);
    }
}

/// The last `c` of `a + c + b`, where `b` holds no `c`, is the one between them.
pub proof fn lemma_rsplit_joined(a: Seq<char>, b: Seq<char>, c: char)
    requires
        forall|j: int| 0 <= j < b.len() ==> #[trigger] b[j] != c,
    ensures
        rsplit_once_spec(a + seq![c] + b, c) == Some((a, b)),
{
    let s = a + seq![c] + b;
    lemma_rfind_char(s, c);
    assert(s[a.len() as int] == c);
    assert forall|k: int| a.len() < k < s.len() implies s[k] != c by {
        assert(s[k] == b[k - a.len() - 1]);
    }
    assert(rfind_char_spec(s, c) == Some(a.len() as int));
    assert(s.subrange(0, a.len() as int) =~= a);
    assert(s.subrange(a.len() + 1 as int, s.len() as int) =~= b);
}

} // verus!
