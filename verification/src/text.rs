//! Character-level text operations with their specifications.
//!
//! Strings are modelled by their views, `Seq<char>`.  The spec functions
//! here state what `str::trim`, `str::split_whitespace`, `str::split`,
//! `str::starts_with`, whitespace-separated fields and friends compute.

use vstd::prelude::*;

verus! {

/// Unicode White_Space, the property tested by `char::is_whitespace`.
pub open spec fn is_ws(c: char) -> bool {
    let u = c as u32;
    (0x9 <= u && u <= 0xd) || u == 0x20 || u == 0x85 || u == 0xa0 || u == 0x1680
        || (0x2000 <= u && u <= 0x200a) || u == 0x2028 || u == 0x2029 || u == 0x202f
        || u == 0x205f || u == 0x3000
}

/// `char::is_whitespace`.
pub fn is_whitespace_char(c: char) -> (b: bool)
    ensures
        b == is_ws(c),
{
    let u = c as u32;
    (0x9 <= u && u <= 0xd) || u == 0x20 || u == 0x85 || u == 0xa0 || u == 0x1680
        || (0x2000 <= u && u <= 0x200a) || u == 0x2028 || u == 0x2029 || u == 0x202f
        || u == 0x205f || u == 0x3000
}

/// `s` with leading whitespace removed.
pub open spec fn trim_start(s: Seq<char>) -> Seq<char>
    decreases s.len(),
{
    if s.len() > 0 && is_ws(s[0]) {
        trim_start(s.drop_first())
    } else {
        s
    }
}

/// `s` with trailing whitespace removed.
pub open spec fn trim_end(s: Seq<char>) -> Seq<char>
    decreases s.len(),
{
    if s.len() > 0 && is_ws(s.last()) {
        trim_end(s.drop_last())
    } else {
        s
    }
}

/// `str::trim`: both ends.
pub open spec fn trim(s: Seq<char>) -> Seq<char> {
    trim_end(trim_start(s))
}

/// `str::starts_with` for a string pattern.
pub open spec fn starts_with(s: Seq<char>, p: Seq<char>) -> bool {
    p.len() <= s.len() && s.take(p.len() as int) == p
}

proof fn lemma_trim_start_skip(s: Seq<char>, i: int)
    requires
        0 <= i < s.len(),
        is_ws(s[i]),
    ensures
        trim_start(s.skip(i)) == trim_start(s.skip(i + 1)),
{
    assert(s.skip(i).drop_first() =~= s.skip(i + 1));
}

proof fn lemma_trim_end_sub(s: Seq<char>, a: int, b: int)
    requires
        0 <= a < b <= s.len(),
        is_ws(s[b - 1]),
    ensures
        trim_end(s.subrange(a, b)) == trim_end(s.subrange(a, b - 1)),
{
    assert(s.subrange(a, b).drop_last() =~= s.subrange(a, b - 1));
}

/// Position of the first character of `s` that is not whitespace.
pub fn leading_ws_end(s: &str) -> (a: usize)
    ensures
        a <= s@.len(),
        trim_start(s@) == s@.skip(a as int),
        forall|j: int| 0 <= j < a ==> is_ws(#[trigger] s@[j]),
        a < s@.len() ==> !is_ws(s@[a as int]),
{
    let n = s.unicode_len();
    let mut a: usize = 0;
    assert(s@.skip(0) =~= s@);
    while a < n && is_whitespace_char(s.get_char(a))
        invariant
            n == s@.len(),
            a <= n,
            trim_start(s@) == trim_start(s@.skip(a as int)),
            forall|j: int| 0 <= j < a ==> is_ws(#[trigger] s@[j]),
        decreases n - a,
    {
        proof {
            lemma_trim_start_skip(s@, a as int);
        }
        a = a + 1;
    }
    a
}

/// `str::trim`.
pub fn trim_str(s: &str) -> (t: &str)
    ensures
        t@ == trim(s@),
{
    let n = s.unicode_len();
    let a = leading_ws_end(s);
    let mut b: usize = n;
    assert(s@.subrange(a as int, n as int) =~= s@.skip(a as int));
    while b > a && is_whitespace_char(s.get_char(b - 1))
        invariant
            n == s@.len(),
            a <= b <= n,
            trim(s@) == trim_end(s@.subrange(a as int, b as int)),
        decreases b,
    {
        proof {
            lemma_trim_end_sub(s@, a as int, b as int);
        }
        b = b - 1;
    }
    s.substring_char(a, b)
}

/// `str == str`.
pub fn str_eq(a: &str, b: &str) -> (r: bool)
    ensures
        r == (a@ == b@),
{
    let n = a.unicode_len();
    if n != b.unicode_len() {
        return false;
    }
    let mut i: usize = 0;
    while i < n
        invariant
            n == a@.len(),
            n == b@.len(),
            i <= n,
            forall|j: int| 0 <= j < i ==> a@[j] == b@[j],
        decreases n - i,
    {
        if a.get_char(i) != b.get_char(i) {
            return false;
        }
        i = i + 1;
    }
    assert(a@ =~= b@);
    true
}

/// `str::starts_with` with a string pattern.
pub fn str_starts_with(s: &str, p: &str) -> (r: bool)
    ensures
        r == starts_with(s@, p@),
{
    let n = p.unicode_len();
    if n > s.unicode_len() {
        return false;
    }
    let mut i: usize = 0;
    while i < n
        invariant
            n == p@.len(),
            n <= s@.len(),
            i <= n,
            forall|j: int| 0 <= j < i ==> s@[j] == p@[j],
        decreases n - i,
    {
        if s.get_char(i) != p.get_char(i) {
            assert(s@.take(n as int)[i as int] != p@[i as int]);
            return false;
        }
        i = i + 1;
    }
    assert(s@.take(n as int) =~= p@);
    true
}

/// Whether `c` occurs in `s`.
pub fn str_contains_char(s: &str, c: char) -> (r: bool)
    ensures
        r == s@.contains(c),
{
    let n = s.unicode_len();
    let mut i: usize = 0;
    while i < n
        invariant
            n == s@.len(),
            i <= n,
            forall|j: int| 0 <= j < i ==> s@[j] != c,
        decreases n - i,
    {
        if s.get_char(i) == c {
            assert(s@[i as int] == c);
            return true;
        }
        i = i + 1;
    }
    false
}


/// The leading run of non-whitespace characters of `s`.
pub open spec fn first_word(s: Seq<char>) -> Seq<char>
    decreases s.len(),
{
    if s.len() == 0 || is_ws(s[0]) {
        Seq::empty()
    } else {
        seq![s[0]] + first_word(s.drop_first())
    }
}

proof fn lemma_first_word_len(s: Seq<char>)
    ensures
        first_word(s).len() <= s.len(),
        s.len() > 0 && !is_ws(s[0]) ==> first_word(s).len() > 0,
        first_word(s) == s.take(first_word(s).len() as int),
    decreases s.len(),
{
    if s.len() > 0 && !is_ws(s[0]) {
        lemma_first_word_len(s.drop_first());
        assert(first_word(s) =~= s.take(first_word(s).len() as int));
    } else {
        assert(first_word(s) =~= s.take(0));
    }
}

/// `str::split_whitespace`: the maximal runs of non-whitespace characters.
pub open spec fn words(s: Seq<char>) -> Seq<Seq<char>>
    decreases s.len(),
{
    let t = trim_start(s);
    if t.len() == 0 {
        Seq::empty()
    } else {
        let w = first_word(t);
        if 0 < w.len() <= t.len() <= s.len() {
            seq![w] + words(t.skip(w.len() as int))
        } else {
            Seq::empty()
        }
    }
}

proof fn lemma_trim_start_len(s: Seq<char>)
    ensures
        trim_start(s).len() <= s.len(),
        trim_start(s).len() > 0 ==> !is_ws(trim_start(s)[0]),
    decreases s.len(),
{
    if s.len() > 0 && is_ws(s[0]) {
        lemma_trim_start_len(s.drop_first());
    }
}

proof fn lemma_words_unfold(s: Seq<char>)
    ensures
        trim_start(s).len() > 0 ==> words(s) == seq![first_word(trim_start(s))] + words(
            trim_start(s).skip(first_word(trim_start(s)).len() as int),
        ),
{
    lemma_trim_start_len(s);
    lemma_first_word_len(trim_start(s));
}

/// The end of the run of non-whitespace characters starting at `j`.
fn word_end(s: &str, j: usize) -> (k: usize)
    requires
        j <= s@.len(),
    ensures
        j <= k <= s@.len(),
        first_word(s@.skip(j as int)) == s@.subrange(j as int, k as int),
        k < s@.len() ==> is_ws(s@[k as int]),
{
    let n = s.unicode_len();
    let mut k = j;
    while k < n && !is_whitespace_char(s.get_char(k))
        invariant
            n == s@.len(),
            j <= k <= n,
            first_word(s@.skip(j as int)) == s@.subrange(j as int, k as int) + first_word(
                s@.skip(k as int),
            ),
        decreases n - k,
    {
        proof {
            assert(s@.skip(k as int).drop_first() =~= s@.skip(k + 1));
            assert(s@.subrange(j as int, k as int) + seq![s@[k as int]] =~= s@.subrange(
                j as int,
                k + 1,
            ));
            assert(first_word(s@.skip(k as int)) == seq![s@[k as int]] + first_word(
                s@.skip(k + 1),
            ));
            assert((s@.subrange(j as int, k as int) + seq![s@[k as int]]) + first_word(
                s@.skip(k + 1),
            ) =~= s@.subrange(j as int, k as int) + (seq![s@[k as int]] + first_word(
                s@.skip(k + 1),
            )));
        }
        k = k + 1;
    }
    assert(first_word(s@.skip(k as int)) =~= Seq::<char>::empty());
    assert(s@.subrange(j as int, k as int) + Seq::<char>::empty() =~= s@.subrange(
        j as int,
        k as int,
    ));
    k
}

/// Index of the first non-whitespace character at or after `i`.
fn skip_ws_from(s: &str, i: usize) -> (j: usize)
    requires
        i <= s@.len(),
    ensures
        i <= j <= s@.len(),
        trim_start(s@.skip(i as int)) == s@.skip(j as int),
        j < s@.len() ==> !is_ws(s@[j as int]),
{
    let n = s.unicode_len();
    let mut j = i;
    while j < n && is_whitespace_char(s.get_char(j))
        invariant
            n == s@.len(),
            i <= j <= n,
            trim_start(s@.skip(i as int)) == trim_start(s@.skip(j as int)),
        decreases n - j,
    {
        proof {
            lemma_trim_start_skip(s@, j as int);
        }
        j = j + 1;
    }
    j
}

/// `str::split_whitespace`, collected.
pub fn split_whitespace(s: &str) -> (ws: Vec<&str>)
    ensures
        ws.deep_view() == words(s@),
{
    let n = s.unicode_len();
    let mut out: Vec<&str> = Vec::new();
    let mut i: usize = 0;
    assert(s@.skip(0) =~= s@);
    while i < n
        invariant
            n == s@.len(),
            i <= n,
            out.deep_view() + words(s@.skip(i as int)) == words(s@),
        decreases n - i,
    {
        let j = skip_ws_from(s, i);
        proof {
            lemma_words_unfold(s@.skip(i as int));
        }
        if j == n {
            assert(s@.skip(j as int).len() == 0);
            assert(out.deep_view() + Seq::<Seq<char>>::empty() =~= out.deep_view());
            i = n;
        } else {
        let k = word_end(s, j);
        let w = s.substring_char(j, k);
        proof {
            assert(s@.skip(j as int).skip(k - j) =~= s@.skip(k as int));
            let ghost old_dv = out.deep_view();
            assert(old_dv + words(s@.skip(i as int)) == old_dv + (seq![w@] + words(
                s@.skip(k as int),
            )));
        }
        let ghost old_out = out.deep_view();
        out.push(w);
        proof {
            assert(out.deep_view() =~= old_out.push(w@));
            assert(old_out + (seq![w@] + words(s@.skip(k as int))) =~= old_out.push(w@) + words(
                s@.skip(k as int),
            ));
        }
        i = k;
        }
    }
    assert(words(s@.skip(n as int)) =~= Seq::<Seq<char>>::empty()) by {
        assert(s@.skip(n as int).len() == 0);
    }
    assert(out.deep_view() + Seq::<Seq<char>>::empty() =~= out.deep_view());
    out
}


/// Index of the first occurrence of `c` in `s`.
pub open spec fn index_of(s: Seq<char>, c: char) -> Option<int>
    decreases s.len(),
{
    if s.len() == 0 {
        None
    } else if s[0] == c {
        Some(0)
    } else {
        match index_of(s.drop_first(), c) {
            Some(i) => Some(i + 1),
            None => None,
        }
    }
}

proof fn lemma_index_of(s: Seq<char>, c: char)
    ensures
        index_of(s, c) matches Some(i) ==> 0 <= i < s.len() && s[i] == c && !s.take(i).contains(
            c,
        ),
        index_of(s, c) is None ==> !s.contains(c),
    decreases s.len(),
{
    if s.len() > 0 {
        lemma_index_of(s.drop_first(), c);
        if s[0] != c {
            if let Some(i) = index_of(s.drop_first(), c) {
                assert forall|j: int| 0 <= j < i + 1 implies #[trigger] s.take(i + 1)[j] != c by {
                    if j > 0 {
                        assert(s.take(i + 1)[j] == s.drop_first().take(i)[j - 1]);
                    }
                }
            } else {
                assert forall|j: int| 0 <= j < s.len() implies #[trigger] s[j] != c by {
                    if j > 0 {
                        assert(s[j] == s.drop_first()[j - 1]);
                    }
                }
            }
        }
    }
}

/// Characterises `index_of` by the first occurrence.
pub proof fn lemma_index_of_is(s: Seq<char>, c: char, k: int)
    requires
        0 <= k <= s.len(),
        forall|j: int| 0 <= j < k ==> s[j] != c,
    ensures
        k < s.len() && s[k] == c ==> index_of(s, c) == Some(k),
        k == s.len() ==> index_of(s, c) is None,
    decreases k,
{
    if k > 0 {
        lemma_index_of_is(s.drop_first(), c, k - 1);
    }
}

/// `str::split` on a character.
pub open spec fn split_char(s: Seq<char>, c: char) -> Seq<Seq<char>>
    decreases s.len(),
{
    match index_of(s, c) {
        None => seq![s],
        Some(i) => if 0 <= i < s.len() {
            seq![s.take(i)] + split_char(s.skip(i + 1), c)
        } else {
            seq![s]
        },
    }
}

/// Position of the first `c` at or after `from`, or the length.
fn find_char_from(s: &str, c: char, from: usize) -> (k: usize)
    requires
        from <= s@.len(),
    ensures
        from <= k <= s@.len(),
        k < s@.len() ==> s@[k as int] == c,
        forall|j: int| from <= j < k ==> s@[j] != c,
{
    let n = s.unicode_len();
    let mut k = from;
    while k < n && s.get_char(k) != c
        invariant
            n == s@.len(),
            from <= k <= n,
            forall|j: int| from <= j < k ==> s@[j] != c,
        decreases n - k,
    {
        k = k + 1;
    }
    k
}

/// `str::split` on a character, collected.
pub fn split_on_char(s: &str, c: char) -> (parts: Vec<&str>)
    ensures
        parts.deep_view() == split_char(s@, c),
        parts@.len() >= 1,
{
    let n = s.unicode_len();
    let mut out: Vec<&str> = Vec::new();
    let mut st: usize = 0;
    assert(s@.skip(0) =~= s@);
    loop
        invariant
            n == s@.len(),
            st <= n,
            out.deep_view() + split_char(s@.skip(st as int), c) == split_char(s@, c),
        decreases n - st,
    {
        let k = find_char_from(s, c, st);
        let ghost rest = s@.skip(st as int);
        proof {
            lemma_index_of_is(rest, c, k - st);
        }
        let piece = s.substring_char(st, k);
        let ghost old_dv = out.deep_view();
        out.push(piece);
        assert(out.deep_view() =~= old_dv.push(piece@));
        if k == n {
            assert(piece@ =~= rest);
            assert(old_dv + seq![rest] =~= out.deep_view());
            return out;
        }
        proof {
            assert(rest.take(k - st) =~= piece@);
            assert(rest.skip(k - st + 1) =~= s@.skip(k + 1));
            assert(old_dv + (seq![piece@] + split_char(s@.skip(k + 1), c)) =~= out.deep_view()
                + split_char(s@.skip(k + 1), c));
        }
        st = k + 1;
    }
}

/// Index of the first whitespace character of `s`.
pub open spec fn index_of_ws(s: Seq<char>) -> Option<int>
    decreases s.len(),
{
    if s.len() == 0 {
        None
    } else if is_ws(s[0]) {
        Some(0)
    } else {
        match index_of_ws(s.drop_first()) {
            Some(i) => Some(i + 1),
            None => None,
        }
    }
}

proof fn lemma_index_of_ws_is(s: Seq<char>, k: int)
    requires
        0 <= k <= s.len(),
        forall|j: int| 0 <= j < k ==> !is_ws(s[j]),
    ensures
        k < s.len() && is_ws(s[k]) ==> index_of_ws(s) == Some(k),
        k == s.len() ==> index_of_ws(s) is None,
    decreases k,
{
    if k > 0 {
        lemma_index_of_ws_is(s.drop_first(), k - 1);
    }
}

/// At most `n` fields of `s`: runs of non-whitespace characters separated
/// by runs of whitespace, the last field holding the rest of the text.
pub open spec fn fields_ws(s: Seq<char>, n: nat) -> Seq<Seq<char>>
    decreases n,
{
    if n == 0 {
        Seq::empty()
    } else if n == 1 {
        seq![s]
    } else {
        let w = first_word(s);
        if w.len() == s.len() {
            seq![s]
        } else {
            seq![w] + fields_ws(trim_start(s.skip(w.len() as int)), (n - 1) as nat)
        }
    }
}

proof fn lemma_trim_start_idempotent(s: Seq<char>)
    ensures
        trim_start(trim_start(s)) == trim_start(s),
{
    lemma_trim_start_len(s);
}

proof fn lemma_words_trim_start(s: Seq<char>)
    ensures
        words(trim_start(s)) == words(s),
{
    lemma_trim_start_idempotent(s);
    lemma_trim_start_len(s);
    lemma_trim_start_len(trim_start(s));
}

/// There are at most `n` fields.
pub proof fn lemma_fields_len(s: Seq<char>, n: nat)
    ensures
        fields_ws(s, n).len() <= n,
    decreases n,
{
    if n > 1 {
        let w = first_word(s);
        lemma_fields_len(trim_start(s.skip(w.len() as int)), (n - 1) as nat);
    }
}

/// The first `n - 1` of `n` fields are the first `n - 1` words: fields are
/// separated by runs of whitespace, as words are.
pub proof fn lemma_fields_are_words(s: Seq<char>, n: nat)
    requires
        n >= 1,
        s.len() == 0 || !is_ws(s[0]),
        fields_ws(s, n).len() == n,
    ensures
        words(s).len() >= n - 1,
        fields_ws(s, n).take(n - 1) == words(s).take(n - 1),
    decreases n,
{
    if n == 1 {
        assert(fields_ws(s, n).take(0) =~= words(s).take(0));
    } else {
        let w = first_word(s);
        lemma_first_word_len(s);
        let rest = trim_start(s.skip(w.len() as int));
        lemma_trim_start_len(s.skip(w.len() as int));
        assert(w.len() != s.len());
        assert(s.len() > 0);
        assert(trim_start(s) == s);
        assert(w.len() > 0);
        assert(words(s) == seq![w] + words(s.skip(w.len() as int)));
        lemma_words_trim_start(s.skip(w.len() as int));
        lemma_fields_are_words(rest, (n - 1) as nat);
        let f = fields_ws(s, n);
        assert(f == seq![w] + fields_ws(rest, (n - 1) as nat));
        assert(f.take(n - 1) =~= seq![w] + fields_ws(rest, (n - 1) as nat).take(n - 2));
        assert(words(s).take(n - 1) =~= seq![w] + words(rest).take(n - 2));
    }
}

/// The first word of `s`.
pub fn first_word_str(s: &str) -> (w: &str)
    ensures
        w@ == first_word(s@),
{
    assert(s@.skip(0) =~= s@);
    let k = word_end(s, 0);
    s.substring_char(0, k)
}

/// Splits `s` into at most `n` fields separated by runs of whitespace.
pub fn split_fields(s: &str, n: usize) -> (parts: Vec<&str>)
    ensures
        parts.deep_view() == fields_ws(s@, n as nat),
{
    let len = s.unicode_len();
    let mut out: Vec<&str> = Vec::new();
    if n == 0 {
        assert(out.deep_view() =~= Seq::<Seq<char>>::empty());
        return out;
    }
    let mut st: usize = 0;
    let mut left: usize = n;
    assert(s@.skip(0) =~= s@);
    loop
        invariant
            len == s@.len(),
            st <= len,
            1 <= left <= n,
            out.deep_view() + fields_ws(s@.skip(st as int), left as nat) == fields_ws(
                s@,
                n as nat,
            ),
        decreases left,
    {
        let ghost rest = s@.skip(st as int);
        let ghost old_dv = out.deep_view();
        if left == 1 {
            let piece = s.substring_char(st, len);
            out.push(piece);
            assert(piece@ =~= rest);
            assert(old_dv + seq![rest] =~= out.deep_view());
            return out;
        }
        let k = word_end(s, st);
        if k == len {
            let piece = s.substring_char(st, len);
            out.push(piece);
            assert(piece@ =~= rest);
            assert(first_word(rest).len() == rest.len());
            assert(old_dv + seq![rest] =~= out.deep_view());
            return out;
        }
        let piece = s.substring_char(st, k);
        out.push(piece);
        assert(out.deep_view() =~= old_dv.push(piece@));
        let j = skip_ws_from(s, k);
        proof {
            assert(piece@ =~= first_word(rest));
            assert(first_word(rest).len() != rest.len());
            assert(rest.skip(k - st) =~= s@.skip(k as int));
            assert(old_dv + (seq![piece@] + fields_ws(s@.skip(j as int), (left - 1) as nat))
                =~= out.deep_view() + fields_ws(s@.skip(j as int), (left - 1) as nat));
        }
        st = j;
        left = left - 1;
    }
}

/// Concatenation of `parts` with `sep` between neighbours (`join`).
pub open spec fn join(parts: Seq<Seq<char>>, sep: Seq<char>) -> Seq<char>
    decreases parts.len(),
{
    if parts.len() == 0 {
        Seq::empty()
    } else if parts.len() == 1 {
        parts[0]
    } else {
        join(parts.drop_last(), sep) + sep + parts.last()
    }
}

/// `[String]::join`.
pub fn join_strings(parts: &Vec<String>, sep: &str) -> (r: String)
    ensures
        r@ == join(parts.deep_view(), sep@),
{
    let mut r = String::new();
    let n = parts.len();
    let ghost dv = parts.deep_view();
    let mut i: usize = 0;
    assert(dv.take(0) =~= Seq::<Seq<char>>::empty());
    while i < n
        invariant
            n == parts@.len(),
            dv == parts.deep_view(),
            i <= n,
            r@ == join(dv.take(i as int), sep@),
        decreases n - i,
    {
        assert(dv.take(i + 1).drop_last() =~= dv.take(i as int));
        if i > 0 {
            r.append(sep);
        } else {
            assert(r@ =~= Seq::<char>::empty());
        }
        r.append(parts[i].as_str());
        proof {
            if i == 0 {
                assert(r@ =~= dv.take(1)[0]);
            }
        }
        i = i + 1;
    }
    assert(dv.take(n as int) =~= dv);
    r
}

/// Whether `p` occurs in `s` as a contiguous piece (`str::contains`).
pub open spec fn contains_seq(s: Seq<char>, p: Seq<char>) -> bool {
    exists|i: int| 0 <= i && i + p.len() <= s.len() && #[trigger] s.subrange(i, i + p.len()) == p
}

/// `str::contains` with a string pattern.
pub fn str_contains(s: &str, p: &str) -> (r: bool)
    ensures
        r == contains_seq(s@, p@),
{
    let n = s.unicode_len();
    let m = p.unicode_len();
    if m > n {
        return false;
    }
    if m == 0 {
        assert(s@.subrange(0int, 0int + p@.len()) =~= p@);
        return true;
    }
    let mut i: usize = 0;
    while i <= n - m
        invariant
            n == s@.len(),
            m == p@.len(),
            1 <= m <= n,
            forall|j: int| 0 <= j < i ==> #[trigger] s@.subrange(j, j + m) != p@,
        decreases n - m + 1 - i,
    {
        let piece = s.substring_char(i, i + m);
        if str_eq(piece, p) {
            return true;
        }
        i = i + 1;
    }
    false
}

/// ASCII decimal digit.
pub open spec fn is_digit(c: char) -> bool {
    48 <= (c as u32) && (c as u32) <= 57
}

/// The value of a sequence of decimal digits.
pub open spec fn digits_value(s: Seq<char>) -> nat
    decreases s.len(),
{
    if s.len() == 0 {
        0
    } else {
        digits_value(s.drop_last()) * 10 + ((s.last() as u32) - 48) as nat
    }
}

/// `s` without one leading `+`.
pub open spec fn unsigned_digits(s: Seq<char>) -> Seq<char> {
    if s.len() > 0 && s[0] == '+' {
        s.drop_first()
    } else {
        s
    }
}

/// Every character is an ASCII digit.
pub open spec fn all_digits(d: Seq<char>) -> bool {
    forall|i: int| 0 <= i < d.len() ==> is_digit(#[trigger] d[i])
}

/// What `str::parse::<u32>` returns: an optional `+`, then one or more ASCII
/// digits whose value fits in a `u32`.
pub open spec fn parse_u32(s: Seq<char>) -> Option<u32> {
    let d = unsigned_digits(s);
    if d.len() > 0 && all_digits(d) && digits_value(d) <= u32::MAX {
        Some(digits_value(d) as u32)
    } else {
        None
    }
}

/// `str::parse::<u32>`, with `None` for every error.
pub fn parse_u32_str(s: &str) -> (r: Option<u32>)
    ensures
        r == parse_u32(s@),
{
    let n = s.unicode_len();
    let start: usize = if n > 0 && s.get_char(0) == '+' {
        1
    } else {
        0
    };
    let ghost d = unsigned_digits(s@);
    assert(d =~= s@.skip(start as int));
    if start == n {
        return None;
    }
    let mut acc: u64 = 0;
    let mut over = false;
    let mut i = start;
    assert(d.take(0) =~= Seq::<char>::empty());
    while i < n
        invariant
            n == s@.len(),
            start <= i <= n,
            d == s@.skip(start as int),
            d == unsigned_digits(s@),
            forall|j: int| start <= j < i ==> is_digit(#[trigger] s@[j]),
            !over ==> acc as nat == digits_value(d.take(i - start)) && acc <= u32::MAX,
            over ==> digits_value(d.take(i - start)) > u32::MAX,
        decreases n - i,
    {
        let c = s.get_char(i);
        let u = c as u32;
        if !(48 <= u && u <= 57) {
            assert(!is_digit(d[i - start]));
            assert(!all_digits(d));
            return None;
        }
        assert(d.take(i - start + 1).drop_last() =~= d.take(i - start));
        assert(d.take(i - start + 1).last() == c);
        if !over {
            acc = acc * 10 + (u - 48) as u64;
            if acc > 0xffff_ffff {
                over = true;
            }
        }
        i = i + 1;
    }
    assert(d.take(n - start) =~= d);
    assert forall|j: int| 0 <= j < d.len() implies is_digit(#[trigger] d[j]) by {
        assert(d[j] == s@[start + j]);
    }
    if over {
        None
    } else {
        Some(acc as u32)
    }
}

/// The character of a decimal digit.
pub open spec fn digit_char(d: nat) -> char {
    ((d + 48) as u32) as char
}

/// Decimal rendering of `n`, without leading zeros (`{}` on an integer).
pub open spec fn decimal(n: nat) -> Seq<char>
    decreases n,
{
    if n < 10 {
        seq![digit_char(n)]
    } else {
        decimal(n / 10) + seq![digit_char(n % 10)]
    }
}

/// `{:02}` on an integer: at least two digits, zero-padded.
pub open spec fn pad2(n: nat) -> Seq<char> {
    if n < 10 {
        seq!['0'] + decimal(n)
    } else {
        decimal(n)
    }
}

/// The one-character string of a decimal digit.
fn digit_str(d: u32) -> (r: &'static str)
    requires
        d < 10,
    ensures
        r@ == seq![digit_char(d as nat)],
{
    proof {
        reveal_strlit("0");
        reveal_strlit("1");
        reveal_strlit("2");
        reveal_strlit("3");
        reveal_strlit("4");
        reveal_strlit("5");
        reveal_strlit("6");
        reveal_strlit("7");
        reveal_strlit("8");
        reveal_strlit("9");
    }
    let r = match d {
        0 => "0",
        1 => "1",
        2 => "2",
        3 => "3",
        4 => "4",
        5 => "5",
        6 => "6",
        7 => "7",
        8 => "8",
        _ => "9",
    };
    assert(r@ =~= seq![digit_char(d as nat)]);
    r
}

/// Appends the decimal rendering of `n` to `out`.
pub fn push_decimal(out: &mut String, n: u64)
    ensures
        final(out)@ == old(out)@ + decimal(n as nat),
    decreases n,
{
    if n < 10 {
        out.append(digit_str(n as u32));
    } else {
        push_decimal(out, n / 10);
        out.append(digit_str((n % 10) as u32));
        assert(old(out)@ + decimal((n / 10) as nat) + seq![digit_char((n % 10) as nat)]
            =~= old(out)@ + decimal(n as nat));
    }
}

/// Appends `{:02}` of `n` to `out`.
pub fn push_pad2(out: &mut String, n: u64)
    ensures
        final(out)@ == old(out)@ + pad2(n as nat),
{
    if n < 10 {
        out.append("0");
        proof {
            reveal_strlit("0");
        }
        assert(out@ =~= old(out)@ + seq!['0']);
    }
    push_decimal(out, n);
    assert(out@ =~= old(out)@ + pad2(n as nat));
}


/// A line without one trailing carriage return.
pub open spec fn strip_cr(l: Seq<char>) -> Seq<char> {
    if l.len() > 0 && l.last() == '\r' {
        l.drop_last()
    } else {
        l
    }
}

/// `str::lines`: pieces ended by `\n` (or `\r\n`); the final line ending is
/// optional and a trailing `\r` is removed only before a `\n`.
pub open spec fn lines(s: Seq<char>) -> Seq<Seq<char>>
    decreases s.len(),
{
    if s.len() == 0 {
        Seq::empty()
    } else {
        match index_of(s, '\n') {
            None => seq![s],
            Some(i) => if 0 <= i < s.len() {
                seq![strip_cr(s.take(i))] + lines(s.skip(i + 1))
            } else {
                seq![s]
            },
        }
    }
}

/// `str::lines`, collected.
pub fn split_lines(s: &str) -> (ls: Vec<&str>)
    ensures
        ls.deep_view() == lines(s@),
{
    let n = s.unicode_len();
    let mut out: Vec<&str> = Vec::new();
    let mut st: usize = 0;
    assert(s@.skip(0) =~= s@);
    while st < n
        invariant
            n == s@.len(),
            st <= n,
            out.deep_view() + lines(s@.skip(st as int)) == lines(s@),
        decreases n - st,
    {
        let k = find_char_from(s, '\n', st);
        let ghost rest = s@.skip(st as int);
        proof {
            lemma_index_of_is(rest, '\n', k - st);
        }
        let ghost old_dv = out.deep_view();
        if k == n {
            let piece = s.substring_char(st, k);
            out.push(piece);
            assert(piece@ =~= rest);
            assert(out.deep_view() =~= old_dv + lines(rest));
            st = n;
        } else {
            let end = if k > st && s.get_char(k - 1) == '\r' {
                k - 1
            } else {
                k
            };
            let piece = s.substring_char(st, end);
            out.push(piece);
            proof {
                assert(piece@ =~= strip_cr(rest.take(k - st)));
                assert(rest.skip(k - st + 1) =~= s@.skip(k + 1));
                assert(out.deep_view() =~= old_dv.push(piece@));
                assert(old_dv + (seq![piece@] + lines(s@.skip(k + 1))) =~= out.deep_view()
                    + lines(s@.skip(k + 1)));
            }
            st = k + 1;
        }
    }
    assert(lines(s@.skip(n as int)) =~= Seq::<Seq<char>>::empty()) by {
        assert(s@.skip(n as int).len() == 0);
    }
    assert(out.deep_view() + Seq::<Seq<char>>::empty() =~= out.deep_view());
    out
}


/// Index of the first occurrence of the pattern `p` in `s`.
pub open spec fn find_pat(s: Seq<char>, p: Seq<char>) -> Option<int>
    decreases s.len(),
{
    if p.len() > s.len() {
        None
    } else if s.take(p.len() as int) == p {
        Some(0)
    } else if s.len() == 0 {
        None
    } else {
        match find_pat(s.drop_first(), p) {
            Some(i) => Some(i + 1),
            None => None,
        }
    }
}

proof fn lemma_find_pat_is(s: Seq<char>, p: Seq<char>, k: int)
    requires
        0 <= k,
        forall|j: int| 0 <= j < k && j + p.len() <= s.len() ==> #[trigger] s.subrange(j, j + p.len()) != p,
    ensures
        k + p.len() <= s.len() && s.subrange(k, k + p.len()) == p ==> find_pat(s, p) == Some(k),
        k + p.len() > s.len() ==> find_pat(s, p) is None,
    decreases k,
{
    assert(s.take(p.len() as int) =~= s.subrange(0int, 0int + p.len()));
    if k > 0 && p.len() <= s.len() && s.len() > 0 {
        assert forall|j: int| 0 <= j < k - 1 && j + p.len() <= s.drop_first().len() implies #[trigger] s.drop_first().subrange(j, j + p.len()) != p by {
            assert(s.drop_first().subrange(j, j + p.len()) =~= s.subrange(j + 1, j + 1 + p.len()));
        }
        lemma_find_pat_is(s.drop_first(), p, k - 1);
        if k + p.len() <= s.len() && s.subrange(k, k + p.len()) == p {
            assert(s.drop_first().subrange(k - 1, k - 1 + p.len()) =~= s.subrange(k, k + p.len()));
        }
    }
}

/// The first index at or after `from` where `p` occurs in `s`.
pub fn find_pat_from(s: &str, p: &str, from: usize) -> (r: Option<usize>)
    requires
        from <= s@.len(),
    ensures
        r == (match find_pat(s@.skip(from as int), p@) {
            Some(i) => Some((i + from) as usize),
            None => None::<usize>,
        }),
        r matches Some(k) ==> from <= k && k + p@.len() <= s@.len(),
{
    let n = s.unicode_len();
    let m = p.unicode_len();
    let mut i = from;
    let ghost t = s@.skip(from as int);
    proof {
        lemma_find_pat_bound(t, p@);
    }
    if m == 0 {
        assert(t.take(0) =~= p@);
        return Some(from);
    }
    while i < n && m <= n - i
        invariant
            n == s@.len(),
            m == p@.len(),
            m >= 1,
            from <= i <= n,
            t == s@.skip(from as int),
            i <= n ==> i - from <= t.len(),
            forall|j: int| 0 <= j < i - from && j + m <= t.len() ==> #[trigger] t.subrange(j, j + m) != p@,
        decreases n + 1 - i,
    {
        let piece = s.substring_char(i, i + m);
        assert(t.subrange(i - from, i - from + m) =~= piece@);
        if str_eq(piece, p) {
            proof {
                lemma_find_pat_is(t, p@, i - from);
            }
            return Some(i);
        }
        i = i + 1;
    }
    proof {
        lemma_find_pat_is(t, p@, i - from);
    }
    None
}

/// The second piece of splitting `s` at `p` (`s.split(p).nth(1)`).
pub open spec fn second_piece(s: Seq<char>, p: Seq<char>) -> Option<Seq<char>> {
    match find_pat(s, p) {
        None => None,
        Some(i) => {
            let rest = s.skip(i + p.len());
            match find_pat(rest, p) {
                None => Some(rest),
                Some(j) => Some(rest.take(j)),
            }
        },
    }
}

proof fn lemma_find_pat_bound(s: Seq<char>, p: Seq<char>)
    ensures
        find_pat(s, p) matches Some(i) ==> 0 <= i && i + p.len() <= s.len(),
    decreases s.len(),
{
    if p.len() <= s.len() && s.take(p.len() as int) != p && s.len() > 0 {
        lemma_find_pat_bound(s.drop_first(), p);
    }
}

/// `s.split(p).nth(1)`.
pub fn second_piece_str<'a>(s: &'a str, p: &str) -> (r: Option<&'a str>)
    ensures
        r.deep_view() == second_piece(s@, p@),
{
    assert(s@.skip(0) =~= s@);
    proof {
        lemma_find_pat_bound(s@, p@);
    }
    match find_pat_from(s, p, 0) {
        None => None,
        Some(i) => {
            let m = p.unicode_len();
            let n = s.unicode_len();
            let st = i + m;
            proof {
                lemma_find_pat_bound(s@.skip(st as int), p@);
            }
            match find_pat_from(s, p, st) {
                None => {
                    let r = s.substring_char(st, n);
                    assert(r@ =~= s@.skip(st as int));
                    Some(r)
                },
                Some(j) => {
                    let r = s.substring_char(st, j);
                    assert(r@ =~= s@.skip(st as int).take(j - st));
                    Some(r)
                },
            }
        },
    }
}

/// `str::strip_prefix` with a string pattern.
pub open spec fn strip_prefix(s: Seq<char>, p: Seq<char>) -> Option<Seq<char>> {
    if starts_with(s, p) {
        Some(s.skip(p.len() as int))
    } else {
        None
    }
}

/// `str::strip_prefix` with a string pattern.
pub fn strip_prefix_str<'a>(s: &'a str, p: &str) -> (r: Option<&'a str>)
    ensures
        r.deep_view() == strip_prefix(s@, p@),
{
    if str_starts_with(s, p) {
        let r = s.substring_char(p.unicode_len(), s.unicode_len());
        assert(r@ =~= s@.skip(p@.len() as int));
        Some(r)
    } else {
        None
    }
}

/// `s` without all leading `c` (`str::trim_start_matches` with a char).
pub open spec fn trim_start_char(s: Seq<char>, c: char) -> Seq<char>
    decreases s.len(),
{
    if s.len() > 0 && s[0] == c {
        trim_start_char(s.drop_first(), c)
    } else {
        s
    }
}

/// `str::trim_start_matches` with a char.
pub fn trim_start_char_str(s: &str, c: char) -> (r: &str)
    ensures
        r@ == trim_start_char(s@, c),
{
    let n = s.unicode_len();
    let mut a: usize = 0;
    assert(s@.skip(0) =~= s@);
    while a < n && s.get_char(a) == c
        invariant
            n == s@.len(),
            a <= n,
            trim_start_char(s@, c) == trim_start_char(s@.skip(a as int), c),
        decreases n - a,
    {
        assert(s@.skip(a as int).drop_first() =~= s@.skip(a + 1));
        a = a + 1;
    }
    let r = s.substring_char(a, n);
    assert(r@ =~= s@.skip(a as int));
    r
}

} // verus!
