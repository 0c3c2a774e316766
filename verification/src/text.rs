//! Character-level text helpers shared by the parser and the serializer:
//! whitespace classification, trimming, and first-occurrence search, each
//! with a specification over `Seq<char>` and a verified executable form.

use vstd::prelude::*;
use vstd::string::StrSliceExecFns;

verus! {

/// The characters with the Unicode `White_Space` property, the set that
/// `char::is_whitespace` recognizes.
pub open spec fn is_space(c: char) -> bool {
    ||| c == ' '
    ||| ('\u{9}' as u32 <= c as u32 && c as u32 <= '\u{d}' as u32)
    ||| c == '\u{85}'
    ||| c == '\u{a0}'
    ||| c == '\u{1680}'
    ||| ('\u{2000}' as u32 <= c as u32 && c as u32 <= '\u{200a}' as u32)
    ||| c == '\u{2028}'
    ||| c == '\u{2029}'
    ||| c == '\u{202f}'
    ||| c == '\u{205f}'
    ||| c == '\u{3000}'
}

/// The characters stripped from the ends of a section header's name.
pub open spec fn is_bracket(c: char) -> bool {
    c == '[' || c == ']'
}

/// Whether `c` has the Unicode `White_Space` property.
pub fn space_char(c: char) -> (r: bool)
    ensures
        r == is_space(c),
{
    let u = c as u32;
    c == ' ' || (9 <= u && u <= 13) || c == '\u{85}' || c == '\u{a0}' || c == '\u{1680}'
        || (0x2000 <= u && u <= 0x200a) || c == '\u{2028}' || c == '\u{2029}' || c == '\u{202f}'
        || c == '\u{205f}' || c == '\u{3000}'
}

/// Whether `c` is `[` or `]`.
pub fn bracket_char(c: char) -> (r: bool)
    ensures
        r == is_bracket(c),
{
    c == '[' || c == ']'
}

/// The longest suffix of `s` whose first character does not satisfy `p`.
pub open spec fn drop_while_start(s: Seq<char>, p: spec_fn(char) -> bool) -> Seq<char>
    decreases s.len(),
{
    if s.len() > 0 && p(s[0]) {
        drop_while_start(s.drop_first(), p)
    } else {
        s
    }
}

/// The longest prefix of `s` whose last character does not satisfy `p`.
pub open spec fn drop_while_end(s: Seq<char>, p: spec_fn(char) -> bool) -> Seq<char>
    decreases s.len(),
{
    if s.len() > 0 && p(s.last()) {
        drop_while_end(s.drop_last(), p)
    } else {
        s
    }
}

/// `s` with leading and trailing whitespace removed, as `str::trim` does.
pub open spec fn trim_spec(s: Seq<char>) -> Seq<char> {
    drop_while_end(drop_while_start(s, |c: char| is_space(c)), |c: char| is_space(c))
}

/// `s` with leading and trailing bracket characters removed, as a section
/// header's name is cut out of `[name]`.
pub open spec fn trim_brackets_spec(s: Seq<char>) -> Seq<char> {
    drop_while_end(drop_while_start(s, |c: char| is_bracket(c)), |c: char| is_bracket(c))
}

/// Dropping from the start does nothing when the first character (if
/// any) does not satisfy `p`.
pub proof fn lemma_drop_while_start_noop(s: Seq<char>, p: spec_fn(char) -> bool)
    requires
        s.len() == 0 || !p(s[0]),
    ensures
        drop_while_start(s, p) == s,
{
}

/// Dropping from the start takes one step when the first character
/// satisfies `p`.
pub proof fn lemma_drop_while_start_step(s: Seq<char>, p: spec_fn(char) -> bool)
    requires
        s.len() > 0,
        p(s[0]),
    ensures
        drop_while_start(s, p) == drop_while_start(s.drop_first(), p),
{
}

/// Dropping from the end does nothing when the last character (if any)
/// does not satisfy `p`.
pub proof fn lemma_drop_while_end_noop(s: Seq<char>, p: spec_fn(char) -> bool)
    requires
        s.len() == 0 || !p(s.last()),
    ensures
        drop_while_end(s, p) == s,
{
}

/// Dropping from the end takes one step when the last character satisfies
/// `p`.
pub proof fn lemma_drop_while_end_step(s: Seq<char>, p: spec_fn(char) -> bool)
    requires
        s.len() > 0,
        p(s.last()),
    ensures
        drop_while_end(s, p) == drop_while_end(s.drop_last(), p),
{
}

/// If the first `k` characters of `s` satisfy `p` and the one after them
/// (if any) does not, dropping while `p` holds is exactly `s.skip(k)`.
pub proof fn lemma_drop_while_start_skip(s: Seq<char>, p: spec_fn(char) -> bool, k: int)
    requires
        0 <= k <= s.len(),
        forall|j: int| 0 <= j < k ==> p(s[j]),
        k < s.len() ==> !p(s[k]),
    ensures
        drop_while_start(s, p) == s.skip(k),
    decreases k,
{
    if k == 0 {
        assert(s.skip(0) =~= s);
    } else {
        let t = s.drop_first();
        assert(t =~= s.skip(1));
        assert(forall|j: int| 0 <= j < k - 1 ==> p(t[j]));
        lemma_drop_while_start_skip(t, p, k - 1);
        assert(t.skip(k - 1) =~= s.skip(k));
    }
}

/// If the characters of `s` from position `k` on satisfy `p` and the one
/// before them (if any) does not, dropping from the end while `p` holds is
/// exactly `s.take(k)`.
pub proof fn lemma_drop_while_end_take(s: Seq<char>, p: spec_fn(char) -> bool, k: int)
    requires
        0 <= k <= s.len(),
        forall|j: int| k <= j < s.len() ==> p(s[j]),
        k > 0 ==> !p(s[k - 1]),
    ensures
        drop_while_end(s, p) == s.take(k),
    decreases s.len() - k,
{
    if k == s.len() {
        if s.len() > 0 {
            assert(!p(s.last()));
        }
        assert(s.take(k) =~= s);
    } else {
        let t = s.drop_last();
        assert(t =~= s.take(s.len() - 1));
        assert(forall|j: int| k <= j < t.len() ==> t[j] == s[j] && p(t[j]));
        lemma_drop_while_end_take(t, p, k);
        assert(t.take(k) =~= s.take(k));
    }
}

/// The index of the first occurrence of `c` in `s` at or after `i`, or
/// `s.len()` if there is none.
pub open spec fn find_char_from(s: Seq<char>, c: char, i: int) -> int
    decreases s.len() - i,
{
    if i < 0 || i >= s.len() {
        s.len() as int
    } else if s[i] == c {
        i
    } else {
        find_char_from(s, c, i + 1)
    }
}

/// Characterizes `find_char_from`: the result points at the first `c` at or
/// after `i`, or past the end when `c` does not occur there.
pub proof fn lemma_find_char_from(s: Seq<char>, c: char, i: int)
    requires
        0 <= i <= s.len(),
    ensures
        i <= find_char_from(s, c, i) <= s.len(),
        forall|j: int| i <= j < find_char_from(s, c, i) ==> s[j] != c,
        find_char_from(s, c, i) < s.len() ==> s[find_char_from(s, c, i)] == c,
    decreases s.len() - i,
{
    if i < s.len() && s[i] != c {
        lemma_find_char_from(s, c, i + 1);
    }
}

/// The characters of `s`, one by one.
pub fn str_chars(s: &str) -> (v: Vec<char>)
    ensures
        v@ == s@,
{
    let mut v: Vec<char> = Vec::new();
    for c in it: s.chars()
        invariant
            it.seq() == s@,
            v@ == s@.take(it.index() as int),
    {
        v.push(c);
    }
    proof {
        assert(v@ =~= s@);
    }
    v
}

/// Whether two string slices hold the same characters.
pub fn str_eq(a: &str, b: &str) -> (r: bool)
    ensures
        r == (a@ == b@),
{
    let va = str_chars(a);
    let vb = str_chars(b);
    if va.len() != vb.len() {
        return false;
    }
    let n = va.len();
    let mut i: usize = 0;
    while i < n
        invariant
            n == va@.len() == vb@.len(),
            0 <= i <= n,
            va@ == a@,
            vb@ == b@,
            forall|j: int| 0 <= j < i ==> a@[j] == b@[j],
        decreases n - i,
    {
        if va[i] != vb[i] {
            return false;
        }
        i += 1;
    }
    proof {
        assert(a@ =~= b@);
    }
    true
}

/// Narrows `[lo, hi)` to the bounds of `trim_spec` applied to that range
/// of `v`.
pub fn trim_bounds(v: &Vec<char>, lo: usize, hi: usize) -> (r: (usize, usize))
    requires
        lo <= hi <= v@.len(),
    ensures
        lo <= r.0 <= r.1 <= hi,
        v@.subrange(r.0 as int, r.1 as int) == trim_spec(v@.subrange(lo as int, hi as int)),
{
    let ghost t = v@.subrange(lo as int, hi as int);
    let mut a = lo;
    while a < hi && space_char(v[a])
        invariant
            lo <= a <= hi <= v@.len(),
            forall|j: int| lo <= j < a ==> is_space(v@[j]),
        decreases hi - a,
    {
        a += 1;
    }
    proof {
        assert(forall|j: int| 0 <= j < a - lo ==> t[j] == v@[lo + j] && is_space(t[j]));
        lemma_drop_while_start_skip(t, |c: char| is_space(c), a - lo);
    }
    let ghost u = t.skip(a - lo);
    let mut b = hi;
    while b > a && space_char(v[b - 1])
        invariant
            lo <= a <= b <= hi <= v@.len(),
            forall|j: int| b <= j < hi ==> is_space(v@[j]),
        decreases b,
    {
        b -= 1;
    }
    proof {
        assert(forall|j: int| 0 <= j < u.len() ==> u[j] == v@[a + j]);
        assert(forall|j: int| b - a <= j < u.len() ==> is_space(u[j]));
        lemma_drop_while_end_take(u, |c: char| is_space(c), b - a);
        assert(u.take(b - a) =~= v@.subrange(a as int, b as int));
    }
    (a, b)
}

/// Narrows `[lo, hi)` to the bounds of `trim_brackets_spec` applied to that
/// range of `v`.
pub fn trim_bracket_bounds(v: &Vec<char>, lo: usize, hi: usize) -> (r: (usize, usize))
    requires
        lo <= hi <= v@.len(),
    ensures
        lo <= r.0 <= r.1 <= hi,
        v@.subrange(r.0 as int, r.1 as int) == trim_brackets_spec(
            v@.subrange(lo as int, hi as int),
        ),
{
    let ghost t = v@.subrange(lo as int, hi as int);
    let mut a = lo;
    while a < hi && bracket_char(v[a])
        invariant
            lo <= a <= hi <= v@.len(),
            forall|j: int| lo <= j < a ==> is_bracket(v@[j]),
        decreases hi - a,
    {
        a += 1;
    }
    proof {
        assert(forall|j: int| 0 <= j < a - lo ==> t[j] == v@[lo + j] && is_bracket(t[j]));
        lemma_drop_while_start_skip(t, |c: char| is_bracket(c), a - lo);
    }
    let ghost u = t.skip(a - lo);
    let mut b = hi;
    while b > a && bracket_char(v[b - 1])
        invariant
            lo <= a <= b <= hi <= v@.len(),
            forall|j: int| b <= j < hi ==> is_bracket(v@[j]),
        decreases b,
    {
        b -= 1;
    }
    proof {
        assert(forall|j: int| 0 <= j < u.len() ==> u[j] == v@[a + j]);
        assert(forall|j: int| b - a <= j < u.len() ==> is_bracket(u[j]));
        lemma_drop_while_end_take(u, |c: char| is_bracket(c), b - a);
        assert(u.take(b - a) =~= v@.subrange(a as int, b as int));
    }
    (a, b)
}

/// The index of the first occurrence of `c` in `v` within `[lo, hi)`, or
/// `hi` if there is none.
pub fn find_char_in(v: &Vec<char>, c: char, lo: usize, hi: usize) -> (r: usize)
    requires
        lo <= hi <= v@.len(),
    ensures
        lo <= r <= hi,
        forall|j: int| lo <= j < r ==> v@[j] != c,
        r < hi ==> v@[r as int] == c,
    decreases hi - lo,
{
    let mut i = lo;
    while i < hi && v[i] != c
        invariant
            lo <= i <= hi <= v@.len(),
            forall|j: int| lo <= j < i ==> v@[j] != c,
        decreases hi - i,
    {
        i += 1;
    }
    i
}


/// Whether `sep` occurs in `s` starting at position `i`.
pub open spec fn match_at(s: Seq<char>, sep: Seq<char>, i: int) -> bool {
    0 <= i && i + sep.len() <= s.len() && s.subrange(i, i + sep.len()) == sep
}

/// The position of the first occurrence of `sep` in `s` at or after `i`,
/// or `s.len()` when there is none.
pub open spec fn first_match_from(s: Seq<char>, sep: Seq<char>, i: int) -> int
    decreases s.len() - i,
{
    if i < 0 || i >= s.len() {
        s.len() as int
    } else if match_at(s, sep, i) {
        i
    } else {
        first_match_from(s, sep, i + 1)
    }
}

/// Past the last position where `sep` could still fit, there is no
/// occurrence left.
pub proof fn lemma_first_match_none_tail(s: Seq<char>, sep: Seq<char>, i: int)
    requires
        0 <= i,
        i + sep.len() > s.len(),
    ensures
        first_match_from(s, sep, i) == s.len(),
    decreases s.len() - i,
{
    if i < s.len() {
        assert(!match_at(s, sep, i));
        lemma_first_match_none_tail(s, sep, i + 1);
    }
}

/// The pieces of `s` between occurrences of `sep`, from position `i` on,
/// each trimmed of surrounding whitespace.
pub open spec fn split_trim_from(s: Seq<char>, sep: Seq<char>, i: int) -> Seq<Seq<char>>
    decreases s.len() - i,
{
    let j = first_match_from(s, sep, i);
    if 0 <= i && i <= j && sep.len() >= 1 && j + sep.len() <= s.len() {
        seq![trim_spec(s.subrange(i, j))] + split_trim_from(s, sep, j + sep.len())
    } else {
        seq![trim_spec(s.subrange(if 0 <= i <= s.len() {
            i
        } else {
            0
        }, s.len() as int))]
    }
}

/// The pieces of `s` between occurrences of `sep`, each trimmed; a text
/// without `sep` is one piece, and so is the empty text.
pub open spec fn split_trim_spec(s: Seq<char>, sep: Seq<char>) -> Seq<Seq<char>> {
    split_trim_from(s, sep, 0)
}

/// The views of a vector of owned strings.
pub open spec fn strs_view(v: Seq<String>) -> Seq<Seq<char>> {
    v.map_values(|s: String| s@)
}

/// The start of the first occurrence of `pat` in `v` at or after `from`,
/// if any.
fn find_pattern(v: &Vec<char>, pat: &Vec<char>, from: usize) -> (r: Option<usize>)
    requires
        pat@.len() >= 1,
        from <= v@.len(),
    ensures
        r matches Some(i) ==> from <= i && match_at(v@, pat@, i as int) && i as int
            == first_match_from(v@, pat@, from as int),
        r is None ==> first_match_from(v@, pat@, from as int) == v@.len(),
{
    let n = v.len();
    let m = pat.len();
    if m > n {
        proof {
            lemma_first_match_none_tail(v@, pat@, from as int);
        }
        return None;
    }
    let mut k = from;
    while k <= n - m
        invariant
            m >= 1,
            m <= n == v@.len(),
            m == pat@.len(),
            from <= k,
            first_match_from(v@, pat@, from as int) == first_match_from(v@, pat@, k as int),
        decreases n - m - k + 1,
    {
        let mut t: usize = 0;
        let mut eq = true;
        while t < m && eq
            invariant
                0 <= t <= m,
                k + m <= n == v@.len(),
                m == pat@.len(),
                eq ==> forall|x: int| 0 <= x < t ==> v@[k + x] == pat@[x],
                !eq ==> !match_at(v@, pat@, k as int),
            decreases m - t, (if eq {
                1int
            } else {
                0int
            }),
        {
            if v[k + t] != pat[t] {
                proof {
                    assert(v@.subrange(k as int, k + m)[t as int] != pat@[t as int]);
                }
                eq = false;
            } else {
                t += 1;
            }
        }
        if eq {
            proof {
                assert(v@.subrange(k as int, k + m) =~= pat@);
            }
            return Some(k);
        }
        k += 1;
    }
    proof {
        lemma_first_match_none_tail(v@, pat@, k as int);
    }
    None
}

/// Splits `value` at every occurrence of `sep` and trims each piece.
pub fn split_trimmed(value: &str, sep: &str) -> (r: Vec<String>)
    requires
        sep@.len() >= 1,
    ensures
        strs_view(r@) == split_trim_spec(value@, sep@),
{
    let rv = str_chars(value);
    let sv = str_chars(sep);
    let n = rv.len();
    let m = sv.len();
    let mut out: Vec<String> = Vec::new();
    let mut start: usize = 0;
    let mut going = true;
    proof {
        assert(strs_view(out@) =~= Seq::<Seq<char>>::empty());
        assert(strs_view(out@) + split_trim_from(value@, sep@, 0) =~= split_trim_from(
            value@,
            sep@,
            0,
        ));
    }
    while going
        invariant
            m == sv@.len() >= 1,
            n == rv@.len(),
            rv@ == value@,
            sv@ == sep@,
            start <= n,
            going ==> split_trim_spec(value@, sep@) == strs_view(out@) + split_trim_from(
                value@,
                sep@,
                start as int,
            ),
            !going ==> strs_view(out@) == split_trim_spec(value@, sep@),
        decreases n - start, (if going {
            1int
        } else {
            0int
        }),
    {
        let ghost out0 = out@;
        match find_pattern(&rv, &sv, start) {
            Some(idx) => {
                let (pa, pb) = trim_bounds(&rv, start, idx);
                let piece = value.substring_char(pa, pb).to_owned();
                out.push(piece);
                proof {
                    assert(strs_view(out@) =~= strs_view(out0).push(trim_spec(
                        value@.subrange(start as int, idx as int),
                    )));
                    assert(split_trim_from(value@, sep@, start as int) == seq![trim_spec(
                        value@.subrange(start as int, idx as int),
                    )] + split_trim_from(value@, sep@, idx + m));
                    assert(strs_view(out@) + split_trim_from(value@, sep@, idx + m)
                        =~= strs_view(out0) + split_trim_from(value@, sep@, start as int));
                }
                start = idx + m;
            },
            None => {
                let (pa, pb) = trim_bounds(&rv, start, n);
                let piece = value.substring_char(pa, pb).to_owned();
                out.push(piece);
                proof {
                    assert(strs_view(out@) =~= strs_view(out0).push(trim_spec(
                        value@.subrange(start as int, n as int),
                    )));
                    assert(split_trim_from(value@, sep@, start as int) == seq![trim_spec(
                        value@.subrange(start as int, n as int),
                    )]);
                    assert(strs_view(out@) =~= strs_view(out0) + split_trim_from(
                        value@,
                        sep@,
                        start as int,
                    ));
                }
                going = false;
            },
        }
    }
    out
}

} // verus!
