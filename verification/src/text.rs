//! String utilities shared by the catalog query engine and the deployment
//! synchronizer: case folding, substring search, lexicographic order, and
//! package-name version stripping.
use vstd::prelude::*;

verus! {

/// The sequence of characters that `str::to_lowercase` produces for a given
/// sequence of characters. Lowercasing depends on the input alone.
pub uninterp spec fn lower_of(s: Seq<char>) -> Seq<char>;

/// Whether `char::is_alphanumeric` holds of a character; a property of the
/// character alone.
pub uninterp spec fn alnum(c: char) -> bool;

/// Relies on `str::to_lowercase`: the result is determined by the input
/// characters alone, and an empty string lowercases to an empty string.
#[verifier::external_body]
pub fn to_lowercase(s: &str) -> (r: String)
    ensures
        r@ == lower_of(s@),
        s@.len() == 0 ==> r@.len() == 0,
{
    s.to_lowercase()
}

/// Relies on `char::is_alphanumeric`: a pure predicate on the character.
#[verifier::external_body]
pub fn char_is_alphanumeric(c: char) -> (r: bool)
    ensures
        r == alnum(c),
{
    c.is_alphanumeric()
}

/// Relies on `String::push`: appends exactly the given character.
#[verifier::external_body]
pub fn push_char(s: &mut String, c: char)
    ensures
        final(s)@ == old(s)@.push(c),
{
    s.push(c)
}

/// `needle` occurs contiguously inside `hay`.
pub open spec fn contains_seq(hay: Seq<char>, needle: Seq<char>) -> bool {
    exists|i: int|
        0 <= i && i + needle.len() <= hay.len() && #[trigger] hay.subrange(i, i + needle.len())
            == needle
}

/// `hay` and `needle` agree on a window of `needle`'s length starting at `i`.
fn match_at(hay: &str, needle: &str, i: usize) -> (r: bool)
    requires
        i + needle@.len() <= hay@.len(),
        hay@.len() <= usize::MAX,
    ensures
        r == (hay@.subrange(i as int, i + needle@.len()) == needle@),
{
    let n = needle.unicode_len();
    let mut j: usize = 0;
    while j < n
        invariant
            n == needle@.len(),
            0 <= j <= n,
            i + n <= hay@.len(),
            hay@.len() <= usize::MAX,
            forall|k: int| 0 <= k < j ==> hay@[i + k] == needle@[k],
        decreases n - j,
    {
        if hay.get_char(i + j) != needle.get_char(j) {
            proof {
                let w = hay@.subrange(i as int, i + needle@.len());
                assert(w[j as int] != needle@[j as int]);
            }
            return false;
        }
        j += 1;
    }
    proof {
        let w = hay@.subrange(i as int, i + needle@.len());
        assert(w =~= needle@);
    }
    true
}

/// Whether `needle` occurs in `hay` exactly at position `i`.
pub fn str_matches_at(hay: &str, needle: &str, i: usize) -> (r: bool)
    ensures
        r == (i + needle@.len() <= hay@.len() && hay@.subrange(i as int, i + needle@.len())
            == needle@),
{
    let hn = hay.unicode_len();
    let nn = needle.unicode_len();
    if nn > hn || i > hn - nn {
        return false;
    }
    match_at(hay, needle, i)
}

/// Substring search: whether `needle` occurs anywhere inside `hay`.
pub fn str_contains(hay: &str, needle: &str) -> (r: bool)
    ensures
        r == contains_seq(hay@, needle@),
{
    let hn = hay.unicode_len();
    let nn = needle.unicode_len();
    if nn > hn {
        return false;
    }
    let limit: usize = hn - nn;
    let mut i: usize = 0;
    while i <= limit
        invariant
            hn == hay@.len(),
            nn == needle@.len(),
            nn <= hn,
            limit == hn - nn,
            0 <= i <= limit + 1,
            forall|k: int|
                0 <= k < i ==> #[trigger] hay@.subrange(k, k + needle@.len()) != needle@,
        decreases limit - i,
    {
        if match_at(hay, needle, i) {
            return true;
        }
        if i == limit {
            return false;
        }
        i += 1;
    }
    false
}

/// Case-insensitive containment: the lowercase form of `frag` occurs inside
/// the lowercase form of `name`. This is the (intentionally loose) policy by
/// which a mod-folder name is matched against a disabled-name fragment.
pub open spec fn spec_matches_fragment(name: Seq<char>, frag: Seq<char>) -> bool {
    contains_seq(lower_of(name), lower_of(frag))
}

/// Case-insensitive substring match of `frag` against `name`.
pub fn matches_fragment(name: &str, frag: &str) -> (r: bool)
    ensures
        r == spec_matches_fragment(name@, frag@),
{
    let name_lower = to_lowercase(name);
    let frag_lower = to_lowercase(frag);
    str_contains(name_lower.as_str(), frag_lower.as_str())
}

/// The views of a sequence of strings.
pub open spec fn seq_views(ds: Seq<String>) -> Seq<Seq<char>> {
    ds.map_values(|d: String| d@)
}

/// A name is disabled when it case-insensitively contains any of the
/// fragments.
pub open spec fn spec_is_disabled(name: Seq<char>, frags: Seq<Seq<char>>) -> bool {
    exists|k: int| 0 <= k < frags.len() && spec_matches_fragment(name, frags[k])
}

/// Whether `name` case-insensitively contains any fragment of `frags`.
pub fn is_disabled(name: &str, frags: &Vec<String>) -> (r: bool)
    ensures
        r == spec_is_disabled(name@, seq_views(frags@)),
{
    let mut k: usize = 0;
    while k < frags.len()
        invariant
            0 <= k <= frags@.len(),
            forall|t: int|
                0 <= t < k ==> !spec_matches_fragment(name@, seq_views(frags@)[t]),
        decreases frags@.len() - k,
    {
        if matches_fragment(name, frags[k].as_str()) {
            assert(seq_views(frags@)[k as int] == frags@[k as int]@);
            return true;
        }
        k += 1;
    }
    false
}

/// Lexicographic order on character sequences, compared position by position
/// from index `i` on; a proper prefix sorts first.
pub open spec fn lex_le_from(a: Seq<char>, b: Seq<char>, i: int) -> bool
    decreases a.len() - i,
{
    if i >= a.len() {
        true
    } else if i >= b.len() {
        false
    } else if a[i] != b[i] {
        a[i] < b[i]
    } else {
        lex_le_from(a, b, i + 1)
    }
}

/// Lexicographic "less than or equal" on character sequences.
pub open spec fn lex_le(a: Seq<char>, b: Seq<char>) -> bool {
    lex_le_from(a, b, 0)
}

/// Lexicographic comparison of two strings.
pub fn str_lex_le(a: &str, b: &str) -> (r: bool)
    ensures
        r == lex_le(a@, b@),
{
    let an = a.unicode_len();
    let bn = b.unicode_len();
    let mut i: usize = 0;
    while i < an && i < bn
        invariant
            an == a@.len(),
            bn == b@.len(),
            0 <= i <= an,
            0 <= i <= bn,
            lex_le(a@, b@) == lex_le_from(a@, b@, i as int),
        decreases an - i,
    {
        let ca = a.get_char(i);
        let cb = b.get_char(i);
        if ca != cb {
            return ca < cb;
        }
        i += 1;
    }
    i >= an
}

/// All characters are ASCII decimal digits and there is at least one.
pub open spec fn all_digits(s: Seq<char>) -> bool {
    s.len() > 0 && forall|i: int| 0 <= i < s.len() ==> ('0' <= #[trigger] s[i] && s[i] <= '9')
}

/// Positions `i < j` are the two dots of a `DIGITS.DIGITS.DIGITS` shape in
/// `s`.
pub open spec fn triple_witness(s: Seq<char>, i: int, j: int) -> bool {
    0 <= i < j < s.len() && s[i] == '.' && s[j] == '.' && all_digits(s.subrange(0, i))
        && all_digits(s.subrange(i + 1, j)) && all_digits(s.subrange(j + 1, s.len() as int))
}

/// The shape `DIGITS.DIGITS.DIGITS` of a three-part version number.
pub open spec fn is_version_triple(s: Seq<char>) -> bool {
    exists|i: int, j: int| #[trigger] triple_witness(s, i, j)
}

/// A dot inside a version triple stands at one of the two separator
/// positions of the given witness.
proof fn lemma_dot_is_separator(sub: Seq<char>, p: int, bi: int, bj: int)
    requires
        triple_witness(sub, bi, bj),
        0 <= p < sub.len(),
        sub[p] == '.',
    ensures
        p == bi || p == bj,
{
    if p < bi {
        assert(sub.subrange(0, bi)[p] == sub[p]);
        assert(false);
    } else if bi < p < bj {
        assert(sub.subrange(bi + 1, bj)[p - bi - 1] == sub[p]);
        assert(false);
    } else if p > bj {
        assert(sub.subrange(bj + 1, sub.len() as int)[p - bj - 1] == sub[p]);
        assert(false);
    }
}

/// Position of the first `.` at or after `from`, if any.
fn find_dot(s: &str, from: usize) -> (r: Option<usize>)
    requires
        from <= s@.len(),
    ensures
        match r {
            Some(d) => from <= d < s@.len() && s@[d as int] == '.' && forall|t: int|
                from <= t < d ==> s@[t] != '.',
            None => forall|t: int| from <= t < s@.len() ==> s@[t] != '.',
        },
{
    let n = s.unicode_len();
    let mut i: usize = from;
    while i < n
        invariant
            n == s@.len(),
            from <= i <= n,
            forall|t: int| from <= t < i ==> s@[t] != '.',
        decreases n - i,
    {
        if s.get_char(i) == '.' {
            return Some(i);
        }
        i += 1;
    }
    None
}

/// Whether positions `lo..hi` of `s` form a non-empty run of ASCII digits.
fn digits_in_range(s: &str, lo: usize, hi: usize) -> (r: bool)
    requires
        lo <= hi <= s@.len(),
    ensures
        r == (hi > lo && forall|t: int| lo <= t < hi ==> '0' <= #[trigger] s@[t] && s@[t] <= '9'),
{
    if hi <= lo {
        return false;
    }
    let mut i: usize = lo;
    while i < hi
        invariant
            lo <= i <= hi <= s@.len(),
            forall|t: int| lo <= t < i ==> '0' <= #[trigger] s@[t] && s@[t] <= '9',
        decreases hi - i,
    {
        let c = s.get_char(i);
        if !('0' <= c && c <= '9') {
            return false;
        }
        i += 1;
    }
    true
}

/// In the window `[from, s.len())` whose only dots are at `d1 < d2`, the
/// version-triple shape holds exactly when the three runs between the dots
/// are non-empty digit runs.
proof fn lemma_triple_structure(s: Seq<char>, from: int, d1: int, d2: int)
    requires
        0 <= from <= d1 < d2 < s.len(),
        s[d1] == '.',
        s[d2] == '.',
        forall|t: int| from <= t < s.len() && t != d1 && t != d2 ==> s[t] != '.',
    ensures
        is_version_triple(s.subrange(from, s.len() as int)) == ((forall|t: int|
            from <= t < d1 ==> '0' <= #[trigger] s[t] && s[t] <= '9') && (forall|t: int|
            d1 < t < d2 ==> '0' <= #[trigger] s[t] && s[t] <= '9') && (forall|t: int|
            d2 < t < s.len() ==> '0' <= #[trigger] s[t] && s[t] <= '9') && d1 > from && d2 > d1 + 1
            && s.len() > d2 + 1),
{
    let sub = s.subrange(from, s.len() as int);
    assert(forall|t: int| 0 <= t < sub.len() ==> #[trigger] sub[t] == s[from + t]);
    let i = d1 - from;
    let j = d2 - from;
    if (forall|t: int| from <= t < d1 ==> '0' <= #[trigger] s[t] && s[t] <= '9') && (forall|t: int|
        d1 < t < d2 ==> '0' <= #[trigger] s[t] && s[t] <= '9') && (forall|t: int|
        d2 < t < s.len() ==> '0' <= #[trigger] s[t] && s[t] <= '9') && d1 > from && d2 > d1 + 1
        && s.len() > d2 + 1 {
        assert(sub[i] == '.');
        assert(sub[j] == '.');
        assert(all_digits(sub.subrange(0, i))) by {
            assert(forall|t: int| 0 <= t < i ==> #[trigger] sub.subrange(0, i)[t] == s[from + t]);
        }
        assert(all_digits(sub.subrange(i + 1, j))) by {
            assert(forall|t: int|
                0 <= t < j - i - 1 ==> #[trigger] sub.subrange(i + 1, j)[t] == s[from + i + 1 + t]);
        }
        assert(all_digits(sub.subrange(j + 1, sub.len() as int))) by {
            assert(forall|t: int|
                0 <= t < sub.len() - j - 1 ==> #[trigger] sub.subrange(j + 1, sub.len() as int)[t]
                    == s[from + j + 1 + t]);
        }
        assert(triple_witness(sub, i, j));
    }
    if is_version_triple(sub) {
        let (bi, bj): (int, int) = choose|bi: int, bj: int| #[trigger] triple_witness(sub, bi, bj);
        lemma_dot_is_separator(sub, i, bi, bj);
        lemma_dot_is_separator(sub, j, bi, bj);
        assert(bi == i && bj == j);
        assert(forall|t: int| from <= t < d1 ==> '0' <= #[trigger] s[t] && s[t] <= '9') by {
            assert(all_digits(sub.subrange(0, i)));
            assert(forall|t: int|
                from <= t < d1 ==> #[trigger] s[t] == sub.subrange(0, i)[t - from]);
        }
        assert(forall|t: int| d1 < t < d2 ==> '0' <= #[trigger] s[t] && s[t] <= '9') by {
            assert(all_digits(sub.subrange(i + 1, j)));
            assert(forall|t: int|
                d1 < t < d2 ==> #[trigger] s[t] == sub.subrange(i + 1, j)[t - from - i - 1]);
        }
        assert(forall|t: int| d2 < t < s.len() ==> '0' <= #[trigger] s[t] && s[t] <= '9') by {
            assert(all_digits(sub.subrange(j + 1, sub.len() as int)));
            assert(forall|t: int|
                d2 < t < s.len() ==> #[trigger] s[t] == sub.subrange(j + 1, sub.len() as int)[t
                    - from - j - 1]);
        }
        assert(all_digits(sub.subrange(0, i)) && i > 0);
        assert(all_digits(sub.subrange(i + 1, j)) && j > i + 1);
        assert(sub.len() > j + 1);
    }
}

/// Checks whether the characters of `s` from `from` on form `D.D.D`.
fn is_version_triple_from(s: &str, from: usize) -> (r: bool)
    requires
        from <= s@.len(),
    ensures
        r == is_version_triple(s@.subrange(from as int, s@.len() as int)),
{
    let ghost sub = s@.subrange(from as int, s@.len() as int);
    proof {
        assert(forall|t: int| 0 <= t < sub.len() ==> #[trigger] sub[t] == s@[from + t]);
    }
    let n = s.unicode_len();
    let d1 = match find_dot(s, from) {
        Some(d) => d,
        None => {
            proof {
                if is_version_triple(sub) {
                    let (bi, bj): (int, int) = choose|bi: int, bj: int|
                        #[trigger] triple_witness(sub, bi, bj);
                    assert(s@[from + bi] == '.');
                    assert(false);
                }
            }
            return false;
        },
    };
    let d2 = match find_dot(s, d1 + 1) {
        Some(d) => d,
        None => {
            proof {
                if is_version_triple(sub) {
                    let (bi, bj): (int, int) = choose|bi: int, bj: int|
                        #[trigger] triple_witness(sub, bi, bj);
                    assert(s@[from + bi] == '.');
                    assert(s@[from + bj] == '.');
                    assert(from + bi >= d1 as int);
                    assert(from + bj > d1 as int);
                    assert(false);
                }
            }
            return false;
        },
    };
    match find_dot(s, d2 + 1) {
        Some(d3) => {
            proof {
                if is_version_triple(sub) {
                    let (bi, bj): (int, int) = choose|bi: int, bj: int|
                        #[trigger] triple_witness(sub, bi, bj);
                    lemma_dot_is_separator(sub, d1 - from, bi, bj);
                    lemma_dot_is_separator(sub, d2 - from, bi, bj);
                    lemma_dot_is_separator(sub, d3 - from, bi, bj);
                    assert(false);
                }
            }
            false
        },
        None => {
            let r1 = digits_in_range(s, from, d1);
            let r2 = digits_in_range(s, d1 + 1, d2);
            let r3 = digits_in_range(s, d2 + 1, n);
            proof {
                lemma_triple_structure(s@, from as int, d1 as int, d2 as int);
            }
            r1 && r2 && r3
        },
    }
}

/// No position of a version triple holds a dash: every position is a digit
/// or one of the two separator dots.
proof fn lemma_triple_no_dash(s: Seq<char>, p: int)
    requires
        is_version_triple(s),
        0 <= p < s.len(),
    ensures
        s[p] != '-',
{
    let (bi, bj): (int, int) = choose|bi: int, bj: int| #[trigger] triple_witness(s, bi, bj);
    if p != bi && p != bj {
        if p < bi {
            assert(s.subrange(0, bi)[p] == s[p]);
        } else if p < bj {
            assert(s.subrange(bi + 1, bj)[p - bi - 1] == s[p]);
        } else {
            assert(s.subrange(bj + 1, s.len() as int)[p - bj - 1] == s[p]);
        }
    }
}

/// `name` splits at position `p` into a stem, a dash, and a trailing
/// three-part version number.
pub open spec fn version_split_at(name: Seq<char>, p: int) -> bool {
    0 <= p < name.len() && name[p] == '-' && is_version_triple(
        name.subrange(p + 1, name.len() as int),
    )
}

/// At most one position can split a name before a trailing version triple,
/// because the triple itself holds no dash.
proof fn lemma_split_unique(name: Seq<char>, p1: int, p2: int)
    requires
        version_split_at(name, p1),
        version_split_at(name, p2),
    ensures
        p1 == p2,
{
    if p1 < p2 {
        let sub = name.subrange(p1 + 1, name.len() as int);
        lemma_triple_no_dash(sub, p2 - p1 - 1);
        assert(sub[p2 - p1 - 1] == name[p2]);
    } else if p2 < p1 {
        let sub = name.subrange(p2 + 1, name.len() as int);
        lemma_triple_no_dash(sub, p1 - p2 - 1);
        assert(sub[p1 - p2 - 1] == name[p1]);
    }
}

/// The package name with any trailing version stripped: a trailing
/// `-MAJOR.MINOR.PATCH` is removed; failing that, a trailing occurrence of
/// `version` itself (with a preceding dash, when present) is removed;
/// otherwise the name is returned unchanged.
pub open spec fn spec_clean_name(name: Seq<char>, version: Seq<char>) -> Seq<char> {
    if exists|p: int| version_split_at(name, p) {
        name.subrange(0, choose|p: int| version_split_at(name, p))
    } else if name.len() >= version.len() && name.subrange(
        name.len() - version.len(),
        name.len() as int,
    ) == version {
        let w = name.subrange(0, name.len() - version.len());
        if w.len() > 0 && w.last() == '-' {
            w.drop_last()
        } else {
            w
        }
    } else {
        name
    }
}

/// Position of the last `-` in `s`, if any.
fn find_last_dash(s: &str) -> (r: Option<usize>)
    ensures
        match r {
            Some(d) => d < s@.len() && s@[d as int] == '-' && forall|t: int|
                d < t < s@.len() ==> s@[t] != '-',
            None => forall|t: int| 0 <= t < s@.len() ==> s@[t] != '-',
        },
{
    let n = s.unicode_len();
    let mut i: usize = n;
    while i > 0
        invariant
            n == s@.len(),
            0 <= i <= n,
            forall|t: int| i <= t < n ==> s@[t] != '-',
        decreases i,
    {
        i -= 1;
        if s.get_char(i) == '-' {
            return Some(i);
        }
    }
    None
}

/// Strip a trailing version from a package name, the way catalog lookups
/// resolve externally-supplied mod identifiers.
pub fn clean_mod_name(name: &str, version: &str) -> (r: String)
    ensures
        r@ == spec_clean_name(name@, version@),
{
    let n = name.unicode_len();
    let vn = version.unicode_len();
    // a trailing `-D.D.D` is stripped outright
    if let Some(p) = find_last_dash(name) {
        if is_version_triple_from(name, p + 1) {
            proof {
                assert(name@.subrange(p + 1, n as int) == name@.subrange(
                    p + 1,
                    name@.len() as int,
                ));
                assert(version_split_at(name@, p as int));
                let q = choose|q: int| version_split_at(name@, q);
                lemma_split_unique(name@, p as int, q);
            }
            return name.substring_char(0, p).to_owned();
        }
        proof {
            if exists|q: int| version_split_at(name@, q) {
                let q = choose|q: int| version_split_at(name@, q);
                if q < p {
                    let sub = name@.subrange(q + 1, name@.len() as int);
                    lemma_triple_no_dash(sub, p - q - 1);
                    assert(sub[p - q - 1] == name@[p as int]);
                } else if q > p {
                    assert(name@[q] == '-');
                }
                assert(false);
            }
        }
    } else {
        proof {
            if exists|q: int| version_split_at(name@, q) {
                let q = choose|q: int| version_split_at(name@, q);
                assert(name@[q] == '-');
                assert(false);
            }
        }
    }
    // otherwise a trailing occurrence of the version string is stripped
    if vn <= n && match_at(name, version, n - vn) {
        let w_end = n - vn;
        if w_end > 0 && name.get_char(w_end - 1) == '-' {
            proof {
                let w = name@.subrange(0, w_end as int);
                assert(w.last() == name@[w_end - 1]);
                assert(w.drop_last() =~= name@.subrange(0, w_end - 1));
            }
            return name.substring_char(0, w_end - 1).to_owned();
        }
        proof {
            let w = name@.subrange(0, w_end as int);
            if w.len() > 0 {
                assert(w.last() == name@[w_end - 1]);
            }
        }
        return name.substring_char(0, w_end).to_owned();
    }
    name.to_owned()
}

/// A package name with a trailing `-MAJOR.MINOR.PATCH` stripped, when one is
/// present; otherwise the name itself.
pub open spec fn spec_strip_version(name: Seq<char>) -> Seq<char> {
    if exists|p: int| version_split_at(name, p) {
        name.subrange(0, choose|p: int| version_split_at(name, p))
    } else {
        name
    }
}

/// Strips a trailing `-MAJOR.MINOR.PATCH` from a package name, if present.
pub fn strip_version_suffix(name: &str) -> (r: String)
    ensures
        r@ == spec_strip_version(name@),
{
    let n = name.unicode_len();
    if let Some(p) = find_last_dash(name) {
        if is_version_triple_from(name, p + 1) {
            proof {
                assert(version_split_at(name@, p as int));
                let q = choose|q: int| version_split_at(name@, q);
                lemma_split_unique(name@, p as int, q);
            }
            return name.substring_char(0, p).to_owned();
        }
        proof {
            if exists|q: int| version_split_at(name@, q) {
                let q = choose|q: int| version_split_at(name@, q);
                if q < p {
                    let sub = name@.subrange(q + 1, name@.len() as int);
                    lemma_triple_no_dash(sub, p - q - 1);
                    assert(sub[p - q - 1] == name@[p as int]);
                } else if q > p {
                    assert(name@[q] == '-');
                }
                assert(false);
            }
        }
    } else {
        proof {
            if exists|q: int| version_split_at(name@, q) {
                let q = choose|q: int| version_split_at(name@, q);
                assert(name@[q] == '-');
                assert(false);
            }
        }
    }
    name.to_owned()
}

/// The characters of `s` that are alphanumeric, in order.
pub open spec fn filter_alnum(s: Seq<char>) -> Seq<char>
    decreases s.len(),
{
    if s.len() == 0 {
        Seq::empty()
    } else {
        let rest = filter_alnum(s.drop_last());
        if alnum(s.last()) {
            rest.push(s.last())
        } else {
            rest
        }
    }
}

/// The canonical form used for fuzzy name matching: lowercase, with every
/// non-alphanumeric character removed.
pub open spec fn spec_normalized(s: Seq<char>) -> Seq<char> {
    filter_alnum(lower_of(s))
}

/// Normalize a string for fuzzy matching: lowercase, remove non-alphanumeric.
pub fn normalize_for_matching(s: &str) -> (r: String)
    ensures
        r@ == spec_normalized(s@),
{
    let lowered = to_lowercase(s);
    let n = lowered.as_str().unicode_len();
    let mut out = String::new();
    let mut i: usize = 0;
    while i < n
        invariant
            n == lowered@.len(),
            0 <= i <= n,
            out@ == filter_alnum(lowered@.subrange(0, i as int)),
        decreases n - i,
    {
        let c = lowered.as_str().get_char(i);
        if char_is_alphanumeric(c) {
            push_char(&mut out, c);
        }
        proof {
            let w = lowered@.subrange(0, i + 1);
            assert(w.drop_last() =~= lowered@.subrange(0, i as int));
            assert(w.last() == lowered@[i as int]);
        }
        i += 1;
    }
    proof {
        assert(lowered@.subrange(0, n as int) =~= lowered@);
    }
    out
}

/// Two strings hold the same characters.
pub fn str_eq(a: &str, b: &str) -> (r: bool)
    ensures
        r == (a@ == b@),
{
    let oa = a.to_owned();
    let ob = b.to_owned();
    oa == ob
}

/// How a Steam game folder name is matched against a game identifier:
/// equal normalized forms, or either normalized form containing the other.
pub open spec fn spec_folder_matches(folder: Seq<char>, id: Seq<char>) -> bool {
    spec_normalized(folder) == spec_normalized(id) || contains_seq(
        spec_normalized(folder),
        spec_normalized(id),
    ) || contains_seq(spec_normalized(id), spec_normalized(folder))
}

/// Whether a library folder name matches a game identifier, by normalized
/// equality or containment in either direction.
pub fn game_folder_matches(folder: &str, id: &str) -> (r: bool)
    ensures
        r == spec_folder_matches(folder@, id@),
{
    let nf = normalize_for_matching(folder);
    let ni = normalize_for_matching(id);
    if nf == ni {
        return true;
    }
    str_contains(nf.as_str(), ni.as_str()) || str_contains(ni.as_str(), nf.as_str())
}

} // verus!
