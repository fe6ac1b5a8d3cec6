use vstd::prelude::*;
use vstd::string::*;

verus! {

// ---------------------------------------------------------------------------
// Models of the string operations the library uses, over `Seq<char>`.
// ---------------------------------------------------------------------------

/// `p` occurs in `s` starting at position `i`.
pub open spec fn matches_at(s: Seq<char>, p: Seq<char>, i: int) -> bool {
    &&& 0 <= i
    &&& i + p.len() <= s.len()
    &&& s.subrange(i, i + p.len()) == p
}

/// Position of the leftmost occurrence of `p` in `s` that starts at or after `from`.
pub open spec fn first_match_from(s: Seq<char>, p: Seq<char>, from: int) -> Option<int>
    decreases s.len() + 1 - from,
{
    if from < 0 || from + p.len() > s.len() {
        None
    } else if matches_at(s, p, from) {
        Some(from)
    } else {
        first_match_from(s, p, from + 1)
    }
}

/// Position of the leftmost occurrence of `p` in `s` (what `str::split_once` splits at).
pub open spec fn first_match(s: Seq<char>, p: Seq<char>) -> Option<int> {
    first_match_from(s, p, 0)
}

/// `s` without its leading run of `c`.
pub open spec fn trim_start(s: Seq<char>, c: char) -> Seq<char>
    decreases s.len(),
{
    if s.len() > 0 && s[0] == c {
        trim_start(s.drop_first(), c)
    } else {
        s
    }
}

/// `s` without its trailing run of `c`.
pub open spec fn trim_end(s: Seq<char>, c: char) -> Seq<char>
    decreases s.len(),
{
    if s.len() > 0 && s.last() == c {
        trim_end(s.drop_last(), c)
    } else {
        s
    }
}

/// `s` with every leading and trailing `c` removed (`str::trim_matches` with a char).
pub open spec fn trim_char(s: Seq<char>, c: char) -> Seq<char> {
    trim_end(trim_start(s, c), c)
}

/// `s[from..]` with every non-overlapping occurrence of `p`, scanned left to right,
/// replaced by `r` (`str::replace` for a non-empty pattern).
pub open spec fn replace_from(s: Seq<char>, p: Seq<char>, r: Seq<char>, from: int) -> Seq<char>
    decreases s.len() - from,
{
    if from < 0 || from >= s.len() {
        Seq::empty()
    } else if p.len() > 0 && matches_at(s, p, from) {
        r + replace_from(s, p, r, from + p.len())
    } else {
        seq![s[from]] + replace_from(s, p, r, from + 1)
    }
}

/// `s` with every non-overlapping occurrence of `p` replaced by `r`.
pub open spec fn replace_all(s: Seq<char>, p: Seq<char>, r: Seq<char>) -> Seq<char> {
    replace_from(s, p, r, 0)
}

// ---------------------------------------------------------------------------
// Facts about the models.
// ---------------------------------------------------------------------------

/// The leftmost occurrence found from `from` is an occurrence, and none starts
/// between `from` and it; when there is none, no occurrence starts at or after `from`.
pub proof fn lemma_first_match_from(s: Seq<char>, p: Seq<char>, from: int)
    requires
        0 <= from,
    ensures
        match first_match_from(s, p, from) {
            Some(i) => from <= i && matches_at(s, p, i) && forall|j: int|
                from <= j < i ==> !matches_at(s, p, j),
            None => forall|j: int| from <= j ==> !matches_at(s, p, j),
        },
    decreases s.len() + 1 - from,
{
    if from + p.len() > s.len() {
    } else if matches_at(s, p, from) {
    } else {
        lemma_first_match_from(s, p, from + 1);
    }
}

/// Replacing from position `from` of `s` is replacing in the rest of `s` from there.
pub proof fn lemma_replace_from_skip(s: Seq<char>, p: Seq<char>, r: Seq<char>, from: int)
    requires
        0 <= from <= s.len(),
    ensures
        replace_from(s, p, r, from) == replace_all(s.skip(from), p, r),
    decreases s.len() - from,
{
    let t = s.skip(from);
    if from >= s.len() {
        assert(t.len() == 0);
        assert(replace_from(t, p, r, 0) == Seq::<char>::empty());
    } else if p.len() > 0 && matches_at(s, p, from) {
        assert(t.subrange(0, p.len() as int) =~= s.subrange(from, from + p.len()));
        assert(matches_at(t, p, 0));
        lemma_replace_from_skip(s, p, r, from + p.len());
        lemma_replace_from_skip(t, p, r, p.len() as int);
        assert(t.skip(p.len() as int) =~= s.skip(from + p.len()));
        assert(replace_from(t, p, r, 0) == r + replace_from(t, p, r, p.len() as int));
    } else {
        if p.len() > 0 {
            assert(!matches_at(t, p, 0)) by {
                if matches_at(t, p, 0) {
                    assert(t.subrange(0, p.len() as int) =~= s.subrange(from, from + p.len()));
                }
            }
        }
        assert(t[0] == s[from]);
        lemma_replace_from_skip(s, p, r, from + 1);
        lemma_replace_from_skip(t, p, r, 1);
        assert(t.skip(1) =~= s.skip(from + 1));
        assert(replace_from(t, p, r, 0) == seq![t[0]] + replace_from(t, p, r, 1));
    }
}

/// When every character of `s` and of `r` satisfies `ok`, so does every character
/// of `replace_from(s, p, r, from)`.
pub proof fn lemma_replace_from_keeps(
    s: Seq<char>,
    p: Seq<char>,
    r: Seq<char>,
    from: int,
    ok: spec_fn(char) -> bool,
)
    requires
        0 <= from,
        forall|k: int| 0 <= k < s.len() ==> ok(#[trigger] s[k]),
        forall|k: int| 0 <= k < r.len() ==> ok(#[trigger] r[k]),
    ensures
        forall|k: int|
            0 <= k < replace_from(s, p, r, from).len() ==> ok(
                #[trigger] replace_from(s, p, r, from)[k],
            ),
    decreases s.len() - from,
{
    if from >= s.len() {
    } else if p.len() > 0 && matches_at(s, p, from) {
        lemma_replace_from_keeps(s, p, r, from + p.len(), ok);
        let rest = replace_from(s, p, r, from + p.len());
        assert forall|k: int| 0 <= k < (r + rest).len() implies ok(#[trigger] (r + rest)[k]) by {
            if k < r.len() {
                assert(r[k] == (r + rest)[k]);
            } else {
                assert(rest[k - r.len()] == (r + rest)[k]);
            }
        }
    } else {
        lemma_replace_from_keeps(s, p, r, from + 1, ok);
        let rest = replace_from(s, p, r, from + 1);
        assert forall|k: int| 0 <= k < (seq![s[from]] + rest).len() implies ok(
            #[trigger] (seq![s[from]] + rest)[k],
        ) by {
            if k >= 1 {
                assert(rest[k - 1] == (seq![s[from]] + rest)[k]);
            }
        }
    }
}

/// Trimming never leaves `c` at either end, and the trimmed text is a piece of the original.
pub proof fn lemma_trim_char(s: Seq<char>, c: char)
    ensures
        trim_char(s, c).len() > 0 ==> trim_char(s, c)[0] != c && trim_char(s, c).last() != c,
    decreases s.len(),
{
    lemma_trim_start_shape(s, c);
    lemma_trim_end_shape(trim_start(s, c), c);
}

proof fn lemma_trim_start_shape(s: Seq<char>, c: char)
    ensures
        trim_start(s, c).len() > 0 ==> trim_start(s, c)[0] != c,
        exists|k: int| 0 <= k <= s.len() && trim_start(s, c) == s.skip(k),
    decreases s.len(),
{
    if s.len() > 0 && s[0] == c {
        lemma_trim_start_shape(s.drop_first(), c);
        let k = choose|k: int|
            0 <= k <= s.drop_first().len() && trim_start(s.drop_first(), c) == s.drop_first().skip(
                k,
            );
        assert(s.drop_first().skip(k) =~= s.skip(k + 1));
    } else {
        assert(s.skip(0) =~= s);
    }
}

proof fn lemma_trim_end_shape(s: Seq<char>, c: char)
    ensures
        trim_end(s, c).len() > 0 ==> trim_end(s, c).last() != c,
        trim_end(s, c).len() > 0 && s.len() > 0 && s[0] != c ==> trim_end(s, c)[0] != c,
        exists|k: int| 0 <= k <= s.len() && trim_end(s, c) == s.take(k),
    decreases s.len(),
{
    if s.len() > 0 && s.last() == c {
        lemma_trim_end_shape(s.drop_last(), c);
        let k = choose|k: int|
            0 <= k <= s.drop_last().len() && trim_end(s.drop_last(), c) == s.drop_last().take(k);
        assert(s.drop_last().take(k) =~= s.take(k));
    } else {
        assert(s.take(s.len() as int) =~= s);
    }
}

// ---------------------------------------------------------------------------
// Executable operations.
// ---------------------------------------------------------------------------

/// The characters of `s`, one by one.
pub fn chars_of(s: &str) -> (chars: Vec<char>)
    ensures
        chars@ == s@,
{
    let n = s.unicode_len();
    let mut chars: Vec<char> = Vec::new();
    let mut i: usize = 0;
    while i < n
        invariant
            n == s@.len(),
            i <= n,
            chars@ == s@.take(i as int),
        decreases n - i,
    {
        chars.push(s.get_char(i));
        i = i + 1;
        assert(chars@ =~= s@.take(i as int));
    }
    assert(s@.take(n as int) =~= s@);
    chars
}

/// Whether `p` occurs in `s` at position `i`.
pub fn occurs_at(s: &Vec<char>, p: &Vec<char>, i: usize) -> (found: bool)
    ensures
        found == matches_at(s@, p@, i as int),
{
    if i > s.len() || p.len() > s.len() - i {
        return false;
    }
    let mut k: usize = 0;
    while k < p.len()
        invariant
            i + p@.len() <= s@.len(),
            s@.len() == s.len(),
            k <= p@.len(),
            forall|j: int| 0 <= j < k ==> s@[i + j] == p@[j],
        decreases p@.len() - k,
    {
        let j = i + k;
        if s[j] != p[k] {
            assert(s@.subrange(i as int, i + p@.len())[k as int] != p@[k as int]);
            return false;
        }
        k = k + 1;
    }
    assert(s@.subrange(i as int, i + p@.len()) =~= p@);
    true
}

/// Position of the leftmost occurrence of `p` in `s`.
pub fn find(s: &Vec<char>, p: &Vec<char>) -> (pos: Option<usize>)
    ensures
        pos matches Some(i) ==> first_match(s@, p@) == Some(i as int),
        pos is None ==> first_match(s@, p@) is None,
{
    if p.len() > s.len() {
        return None;
    }
    let last = s.len() - p.len();
    let mut i: usize = 0;
    while i <= last
        invariant
            last + p@.len() == s@.len(),
            first_match_from(s@, p@, i as int) == first_match(s@, p@),
        decreases last + 1 - i,
    {
        if occurs_at(s, p, i) {
            return Some(i);
        }
        if i == last {
            assert(first_match_from(s@, p@, i + 1) is None);
            return None;
        }
        i = i + 1;
    }
    None
}

/// `s[from..to]` as an owned string.
pub fn substring(s: &str, from: usize, to: usize) -> (piece: String)
    requires
        from <= to <= s@.len(),
    ensures
        piece@ == s@.subrange(from as int, to as int),
{
    String::from_str(s.substring_char(from, to))
}

/// `s` with every leading and trailing `c` removed.
pub fn trim_matches_char(s: &str, c: char) -> (trimmed: String)
    ensures
        trimmed@ == trim_char(s@, c),
{
    let chars = chars_of(s);
    let n = chars.len();
    let mut a: usize = 0;
    assert(s@.skip(0) =~= s@);
    while a < n && chars[a] == c
        invariant
            n == s@.len(),
            chars@ == s@,
            a <= n,
            trim_start(s@.skip(a as int), c) == trim_start(s@, c),
        decreases n - a,
    {
        assert(s@.skip(a as int).drop_first() =~= s@.skip(a + 1));
        a = a + 1;
    }
    assert(trim_start(s@.skip(a as int), c) == s@.skip(a as int));
    let mut b: usize = n;
    assert(s@.subrange(a as int, n as int) =~= s@.skip(a as int));
    while b > a && chars[b - 1] == c
        invariant
            n == s@.len(),
            chars@ == s@,
            a <= b <= n,
            trim_end(s@.subrange(a as int, b as int), c) == trim_end(s@.skip(a as int), c),
            trim_start(s@, c) == s@.skip(a as int),
        decreases b,
    {
        assert(s@.subrange(a as int, b as int).drop_last() =~= s@.subrange(a as int, b - 1));
        b = b - 1;
    }
    substring(s, a, b)
}

/// `s` with every non-overlapping occurrence of `p`, scanned left to right, replaced by `r`.
pub fn replace(s: &str, p: &str, r: &str) -> (replaced: String)
    requires
        p@.len() > 0,
    ensures
        replaced@ == replace_all(s@, p@, r@),
{
    let chars = chars_of(s);
    let pat = chars_of(p);
    let n = chars.len();
    let m = pat.len();
    let mut out = String::new();
    let mut i: usize = 0;
    while i < n
        invariant
            n == s@.len(),
            m == p@.len(),
            m > 0,
            chars@ == s@,
            pat@ == p@,
            i <= n,
            out@ + replace_from(s@, p@, r@, i as int) == replace_all(s@, p@, r@),
        decreases n - i,
    {
        if occurs_at(&chars, &pat, i) {
            assert(out@ + replace_from(s@, p@, r@, i as int) == (out@ + r@) + replace_from(
                s@,
                p@,
                r@,
                i + m,
            ));
            out.append(r);
            i = i + m;
        } else {
            let one = s.substring_char(i, i + 1);
            assert(one@ =~= seq![s@[i as int]]);
            assert(out@ + replace_from(s@, p@, r@, i as int) == (out@ + one@) + replace_from(
                s@,
                p@,
                r@,
                i + 1,
            ));
            out.append(one);
            i = i + 1;
        }
    }
    assert(replace_from(s@, p@, r@, i as int) =~= Seq::<char>::empty());
    assert(out@ + Seq::<char>::empty() =~= out@);
    out
}

/// `a` followed by `b`.
pub fn concat2(a: &str, b: &str) -> (joined: String)
    ensures
        joined@ == a@ + b@,
{
    let mut out = String::from_str(a);
    out.append(b);
    out
}

/// `a`, `b` and `c` one after the other.
pub fn concat3(a: &str, b: &str, c: &str) -> (joined: String)
    ensures
        joined@ == a@ + b@ + c@,
{
    let mut out = String::from_str(a);
    out.append(b);
    out.append(c);
    out
}

/// The items one after the other, with `sep` between neighbours.
pub open spec fn joined(items: Seq<Seq<char>>, sep: Seq<char>) -> Seq<char>
    decreases items.len(),
{
    if items.len() == 0 {
        Seq::empty()
    } else if items.len() == 1 {
        items[0]
    } else {
        joined(items.drop_last(), sep) + sep + items.last()
    }
}

/// The items one after the other, with `sep` between neighbours (`[String]::join`).
pub fn join(items: &Vec<String>, sep: &str) -> (text: String)
    ensures
        text@ == joined(items@.map_values(|s: String| s@), sep@),
{
    let ghost views = items@.map_values(|s: String| s@);
    let mut text = String::new();
    let n = items.len();
    let mut i: usize = 0;
    while i < n
        invariant
            n == items@.len(),
            views == items@.map_values(|s: String| s@),
            i <= n,
            text@ == joined(views.take(i as int), sep@),
        decreases n - i,
    {
        assert(views.take(i + 1).drop_last() =~= views.take(i as int));
        assert(views.take(i + 1).last() == items@[i as int]@);
        if i > 0 {
            text.append(sep);
        } else {
            assert(text@ =~= Seq::<char>::empty());
        }
        text.append(items[i].as_str());
        i = i + 1;
    }
    assert(views.take(n as int) =~= views);
    text
}

} // verus!
