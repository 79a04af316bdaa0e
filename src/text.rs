//! Character-level scanning over request text: locating a pattern, skipping
//! whitespace, and the specifications these scans are proved against.
use vstd::prelude::*;

verus! {

/// `pat` occurs in `s` starting at index `i`.
pub open spec fn occurs_at(s: Seq<char>, pat: Seq<char>, i: int) -> bool {
    0 <= i && i + pat.len() <= s.len() && s.subrange(i, i + pat.len()) == pat
}

/// `j` is the first index at or after `i` where `pat` occurs in `s`.
pub open spec fn first_at(s: Seq<char>, pat: Seq<char>, i: int, j: int) -> bool {
    &&& i <= j
    &&& occurs_at(s, pat, j)
    &&& forall|k: int| i <= k < j ==> !occurs_at(s, pat, k)
}

/// The first index at or after `i` where `pat` occurs in `s`, if any.
pub open spec fn find_from(s: Seq<char>, pat: Seq<char>, i: int) -> Option<int> {
    if exists|j: int| first_at(s, pat, i, j) {
        Some(choose|j: int| first_at(s, pat, i, j))
    } else {
        None
    }
}

/// Where `pat` occurs in `s` at `k`, it has a first occurrence at or after 0.
pub proof fn lemma_first_occurrence(s: Seq<char>, pat: Seq<char>, k: int)
    requires
        occurs_at(s, pat, k),
    ensures
        exists|j: int| first_at(s, pat, 0, j),
    decreases k,
{
    if forall|i: int| 0 <= i < k ==> !occurs_at(s, pat, i) {
        assert(first_at(s, pat, 0, k));
    } else {
        let i = choose|i: int| 0 <= i < k && occurs_at(s, pat, i);
        lemma_first_occurrence(s, pat, i);
    }
}

/// Locates the first occurrence of `pat` in `s` at or after `from`.
pub fn find(s: &[char], pat: &[char], from: usize) -> (r: Option<usize>)
    requires
        from <= s@.len(),
    ensures
        r matches Some(j) ==> find_from(s@, pat@, from as int) == Some(j as int),
        r is None ==> find_from(s@, pat@, from as int) is None,
{
    let n = s.len();
    let m = pat.len();
    if m > n {
        assert(forall|j: int| !occurs_at(s@, pat@, j));
        return None;
    }
    if m == 0 {
        assert(s@.subrange(from as int, from as int) =~= pat@);
        assert(first_at(s@, pat@, from as int, from as int));
        return Some(from);
    }
    let mut i: usize = from;
    while i <= n - m
        invariant
            from <= i,
            0 < m,
            m == pat@.len(),
            n == s@.len(),
            m <= n,
            forall|k: int| from <= k < i ==> !occurs_at(s@, pat@, k),
        decreases n - i,
    {
        let mut j: usize = 0;
        let mut same = true;
        assert(s@.subrange(i as int, i as int) =~= pat@.subrange(0, 0));
        while j < m && same
            invariant
                i + m <= n,
                j <= m,
                m == pat@.len(),
                n == s@.len(),
                same <==> s@.subrange(i as int, i + j) == pat@.subrange(0, j as int),
            decreases m - j,
        {
            if s[i + j] != pat[j] {
                same = false;
                assert(s@.subrange(i as int, i + j + 1)[j as int] != pat@.subrange(0, j + 1)[j
                    as int]);
            } else {
                assert(s@.subrange(i as int, i + j + 1) =~= s@.subrange(i as int, i + j).push(
                    s@[i + j],
                ));
                assert(pat@.subrange(0, j + 1) =~= pat@.subrange(0, j as int).push(
                    pat@[j as int],
                ));
            }
            j = j + 1;
        }
        if same {
            assert(pat@.subrange(0, m as int) =~= pat@);
            assert(first_at(s@, pat@, from as int, i as int));
            return Some(i);
        }
        assert(!occurs_at(s@, pat@, i as int)) by {
            if occurs_at(s@, pat@, i as int) {
                assert(s@.subrange(i as int, i + j) =~= s@.subrange(i as int, i + m).subrange(
                    0,
                    j as int,
                ));
            }
        }
        i = i + 1;
    }
    None
}

/// ASCII whitespace: space, tab, line feed, form feed and carriage return.
pub open spec fn is_ascii_space(c: char) -> bool {
    c == ' ' || c == '\t' || c == '\n' || c == '\x0C' || c == '\r'
}

/// Whitespace in the Unicode sense (the `White_Space` property), the set that
/// `str::trim` strips.
pub open spec fn is_space(c: char) -> bool {
    let u = c as u32;
    ||| 0x09 <= u <= 0x0D
    ||| u == 0x20
    ||| u == 0x85
    ||| u == 0xA0
    ||| u == 0x1680
    ||| 0x2000 <= u <= 0x200A
    ||| u == 0x2028
    ||| u == 0x2029
    ||| u == 0x202F
    ||| u == 0x205F
    ||| u == 0x3000
}

/// The first index at or after `i` that holds no ASCII whitespace, or the
/// length of `s`.
pub open spec fn skip_ascii_space(s: Seq<char>, i: int) -> int
    decreases s.len() - i,
{
    if 0 <= i < s.len() && is_ascii_space(s[i]) {
        skip_ascii_space(s, i + 1)
    } else {
        i
    }
}

/// The first index at or after `i` that holds ASCII whitespace, or the length
/// of `s`: the end of a token that starts at `i`.
pub open spec fn token_end(s: Seq<char>, i: int) -> int
    decreases s.len() - i,
{
    if 0 <= i < s.len() && !is_ascii_space(s[i]) {
        token_end(s, i + 1)
    } else {
        i
    }
}

/// The first index at or after `i` that holds no Unicode whitespace, or the
/// length of `s`.
pub open spec fn skip_space(s: Seq<char>, i: int) -> int
    decreases s.len() - i,
{
    if 0 <= i < s.len() && is_space(s[i]) {
        skip_space(s, i + 1)
    } else {
        i
    }
}

/// The least index `k <= j` such that `s[k..j]` is all Unicode whitespace.
pub open spec fn skip_space_back(s: Seq<char>, j: int) -> int
    decreases j,
{
    if 0 < j <= s.len() && is_space(s[j - 1]) {
        skip_space_back(s, j - 1)
    } else {
        j
    }
}

/// `s` without its leading and trailing Unicode whitespace.
pub open spec fn trim(s: Seq<char>) -> Seq<char> {
    let a = skip_space(s, 0);
    let b = skip_space_back(s, s.len() as int);
    if a < b {
        s.subrange(a, b)
    } else {
        Seq::empty()
    }
}

/// Whether `c` is ASCII whitespace.
pub fn ascii_space(c: char) -> (r: bool)
    ensures
        r == is_ascii_space(c),
{
    c == ' ' || c == '\t' || c == '\n' || c == '\x0C' || c == '\r'
}

/// Whether `c` is Unicode whitespace.
pub fn space(c: char) -> (r: bool)
    ensures
        r == is_space(c),
{
    let u = c as u32;
    (0x09 <= u && u <= 0x0D) || u == 0x20 || u == 0x85 || u == 0xA0 || u == 0x1680 || (0x2000
        <= u && u <= 0x200A) || u == 0x2028 || u == 0x2029 || u == 0x202F || u == 0x205F || u
        == 0x3000
}

/// Skips the ASCII whitespace that starts at `from`.
pub fn skip_ascii_spaces(s: &[char], from: usize) -> (r: usize)
    requires
        from <= s@.len(),
    ensures
        r as int == skip_ascii_space(s@, from as int),
        from <= r <= s@.len(),
{
    let mut i = from;
    while i < s.len() && ascii_space(s[i])
        invariant
            from <= i <= s@.len(),
            skip_ascii_space(s@, i as int) == skip_ascii_space(s@, from as int),
        decreases s@.len() - i,
    {
        i = i + 1;
    }
    i
}

/// The end of the token that starts at `from`.
pub fn find_token_end(s: &[char], from: usize) -> (r: usize)
    requires
        from <= s@.len(),
    ensures
        r as int == token_end(s@, from as int),
        from <= r <= s@.len(),
{
    let mut i = from;
    while i < s.len() && !ascii_space(s[i])
        invariant
            from <= i <= s@.len(),
            token_end(s@, i as int) == token_end(s@, from as int),
        decreases s@.len() - i,
    {
        i = i + 1;
    }
    i
}

/// The bounds of `s` without its leading and trailing Unicode whitespace.
pub fn trim_bounds(s: &[char]) -> (r: (usize, usize))
    ensures
        r.0 <= r.1 <= s@.len(),
        s@.subrange(r.0 as int, r.1 as int) == trim(s@),
{
    let mut a: usize = 0;
    while a < s.len() && space(s[a])
        invariant
            a <= s@.len(),
            skip_space(s@, a as int) == skip_space(s@, 0),
        decreases s@.len() - a,
    {
        a = a + 1;
    }
    let mut b: usize = s.len();
    while b > 0 && space(s[b - 1])
        invariant
            b <= s@.len(),
            skip_space_back(s@, b as int) == skip_space_back(s@, s@.len() as int),
        decreases b,
    {
        b = b - 1;
    }
    if a < b {
        (a, b)
    } else {
        assert(s@.subrange(a as int, a as int) =~= Seq::<char>::empty());
        (a, a)
    }
}

/// The characters of `s`, in order.
pub fn chars_of(s: &str) -> (r: Vec<char>)
    ensures
        r@ == s@,
{
    let mut v: Vec<char> = Vec::new();
    for c in it: s.chars()
        invariant
            v@ == it.seq().take(it.index() as int),
    {
        v.push(c);
    }
    v
}

/// The lower-case form of `s` that `str::to_lowercase` gives.
pub uninterp spec fn lower_of(s: Seq<char>) -> Seq<char>;

/// Relies on `str::to_lowercase`: its result is a function of the characters
/// of `s` alone.
#[verifier::external_body]
pub(crate) fn lowercase(s: &str) -> (r: String)
    ensures
        r@ == lower_of(s@),
{
    s.to_lowercase()
}

} // verus!
