//! Character and string primitives: classification, prefix and suffix tests,
//! equality and ordering, trimming, and splitting text into lines the way the
//! procedure files are read (a line ends at `'\n'`; one trailing `'\r'` is
//! dropped; a final empty fragment after the last `'\n'` is not a line).

use vstd::prelude::*;

verus! {

/// The whitespace characters of the file grammar: space, tab, carriage
/// return and newline. The grammar treats only these four as whitespace;
/// other Unicode space characters count as ordinary text, so a value made
/// of them is not blank.
pub open spec fn char_is_space(c: char) -> bool {
    c == ' ' || c == '\t' || c == '\r' || c == '\n'
}

/// An ASCII decimal digit.
pub open spec fn char_is_digit(c: char) -> bool {
    '0' <= c && c <= '9'
}

pub fn is_space(c: char) -> (r: bool)
    ensures
        r == char_is_space(c),
{
    c == ' ' || c == '\t' || c == '\r' || c == '\n'
}

pub fn is_digit(c: char) -> (r: bool)
    ensures
        r == char_is_digit(c),
{
    '0' <= c && c <= '9'
}

/// Every character of `s` is whitespace (true of the empty string).
pub open spec fn seq_is_blank(s: Seq<char>) -> bool {
    forall|i: int| 0 <= i < s.len() ==> char_is_space(s[i])
}

pub fn is_blank(s: &str) -> (r: bool)
    ensures
        r == seq_is_blank(s@),
{
    let len = s.unicode_len();
    let mut i: usize = 0;
    while i < len
        invariant
            i <= len,
            len == s@.len(),
            forall|j: int| 0 <= j < i ==> char_is_space(s@[j]),
        decreases len - i,
    {
        if !is_space(s.get_char(i)) {
            return false;
        }
        i += 1;
    }
    true
}

/// `p` is a prefix of `s`.
pub open spec fn is_prefix(p: Seq<char>, s: Seq<char>) -> bool {
    p.len() <= s.len() && (forall|j: int| 0 <= j < p.len() ==> p[j] == s[j])
}

/// `p` is a suffix of `s`.
pub open spec fn is_suffix(p: Seq<char>, s: Seq<char>) -> bool {
    p.len() <= s.len() && (forall|j: int| 0 <= j < p.len() ==> p[j] == s[s.len() - p.len() + j])
}

pub fn str_eq(a: &str, b: &str) -> (r: bool)
    ensures
        r == (a@ == b@),
{
    let alen = a.unicode_len();
    let blen = b.unicode_len();
    if alen != blen {
        return false;
    }
    let mut i: usize = 0;
    while i < alen
        invariant
            i <= alen,
            alen == a@.len(),
            alen == b@.len(),
            forall|j: int| 0 <= j < i ==> a@[j] == b@[j],
        decreases alen - i,
    {
        if a.get_char(i) != b.get_char(i) {
            return false;
        }
        i += 1;
    }
    proof {
        assert(a@ =~= b@);
    }
    true
}

pub fn starts_with_str(s: &str, p: &str) -> (r: bool)
    ensures
        r == is_prefix(p@, s@),
{
    let slen = s.unicode_len();
    let plen = p.unicode_len();
    if plen > slen {
        return false;
    }
    let mut i: usize = 0;
    while i < plen
        invariant
            i <= plen,
            plen <= slen,
            slen == s@.len(),
            plen == p@.len(),
            forall|j: int| 0 <= j < i ==> p@[j] == s@[j],
        decreases plen - i,
    {
        if s.get_char(i) != p.get_char(i) {
            return false;
        }
        i += 1;
    }
    true
}

pub fn ends_with_str(s: &str, p: &str) -> (r: bool)
    ensures
        r == is_suffix(p@, s@),
{
    let slen = s.unicode_len();
    let plen = p.unicode_len();
    if plen > slen {
        return false;
    }
    let off = slen - plen;
    let mut i: usize = 0;
    while i < plen
        invariant
            i <= plen,
            plen <= slen,
            off == slen - plen,
            slen == s@.len(),
            plen == p@.len(),
            forall|j: int| 0 <= j < i ==> p@[j] == s@[s@.len() - p@.len() + j],
        decreases plen - i,
    {
        if s.get_char(off + i) != p.get_char(i) {
            return false;
        }
        i += 1;
    }
    true
}

/// Strict lexicographic order on character sequences, by code point.
pub open spec fn seq_char_lt(a: Seq<char>, b: Seq<char>) -> bool
    decreases a.len(),
{
    if b.len() == 0 {
        false
    } else if a.len() == 0 {
        true
    } else if a[0] != b[0] {
        a[0] < b[0]
    } else {
        seq_char_lt(a.drop_first(), b.drop_first())
    }
}

pub open spec fn seq_char_le(a: Seq<char>, b: Seq<char>) -> bool {
    seq_char_lt(a, b) || a == b
}

pub fn str_lt(a: &str, b: &str) -> (r: bool)
    ensures
        r == seq_char_lt(a@, b@),
    decreases a@.len(),
{
    let alen = a.unicode_len();
    let blen = b.unicode_len();
    if blen == 0 {
        false
    } else if alen == 0 {
        true
    } else {
        let ca = a.get_char(0);
        let cb = b.get_char(0);
        if ca != cb {
            ca < cb
        } else {
            let r = str_lt(a.substring_char(1, alen), b.substring_char(1, blen));
            proof {
                assert(a@.subrange(1, a@.len() as int) =~= a@.drop_first());
                assert(b@.subrange(1, b@.len() as int) =~= b@.drop_first());
            }
            r
        }
    }
}

pub fn str_le(a: &str, b: &str) -> (r: bool)
    ensures
        r == seq_char_le(a@, b@),
{
    str_lt(a, b) || str_eq(a, b)
}

/// The sequence without leading whitespace.
pub open spec fn spec_trim_start(s: Seq<char>) -> Seq<char>
    decreases s.len(),
{
    if s.len() > 0 && char_is_space(s[0]) {
        spec_trim_start(s.drop_first())
    } else {
        s
    }
}

/// The sequence without trailing whitespace.
pub open spec fn spec_trim_end(s: Seq<char>) -> Seq<char>
    decreases s.len(),
{
    if s.len() > 0 && char_is_space(s[s.len() - 1]) {
        spec_trim_end(s.drop_last())
    } else {
        s
    }
}

/// The sequence without leading and trailing whitespace.
pub open spec fn spec_trim(s: Seq<char>) -> Seq<char> {
    spec_trim_end(spec_trim_start(s))
}

proof fn lemma_trim_start_step(s: Seq<char>, i: int)
    requires
        0 <= i < s.len(),
        forall|j: int| 0 <= j < i ==> char_is_space(s[j]),
        !char_is_space(s[i]),
    ensures
        spec_trim_start(s) == s.skip(i),
    decreases i,
{
    if i == 0 {
        assert(s.skip(0) =~= s);
    } else {
        lemma_trim_start_step(s.drop_first(), i - 1);
        assert(s.drop_first().skip(i - 1) =~= s.skip(i));
    }
}

proof fn lemma_trim_start_all(s: Seq<char>)
    requires
        forall|j: int| 0 <= j < s.len() ==> char_is_space(s[j]),
    ensures
        spec_trim_start(s) == Seq::<char>::empty(),
    decreases s.len(),
{
    if s.len() > 0 {
        lemma_trim_start_all(s.drop_first());
    } else {
        assert(s =~= Seq::<char>::empty());
    }
}

proof fn lemma_trim_end_step(s: Seq<char>, i: int)
    requires
        0 <= i < s.len(),
        forall|j: int| i < j < s.len() ==> char_is_space(s[j]),
        !char_is_space(s[i]),
    ensures
        spec_trim_end(s) == s.take(i + 1),
    decreases s.len(),
{
    if i == s.len() - 1 {
        assert(s.take(i + 1) =~= s);
    } else {
        lemma_trim_end_step(s.drop_last(), i);
        assert(s.drop_last().take(i + 1) =~= s.take(i + 1));
    }
}

/// Both-ends whitespace trim of a string.
pub fn trim_str(s: &str) -> (r: String)
    ensures
        r@ == spec_trim(s@),
{
    let len = s.unicode_len();
    let mut a: usize = 0;
    while a < len && is_space(s.get_char(a))
        invariant
            a <= len,
            len == s@.len(),
            forall|j: int| 0 <= j < a ==> char_is_space(s@[j]),
        decreases len - a,
    {
        a += 1;
    }
    if a == len {
        proof {
            lemma_trim_start_all(s@);
        }
        return String::new();
    }
    proof {
        lemma_trim_start_step(s@, a as int);
    }
    // last non-space index
    let mut b: usize = len;
    while b > a && is_space(s.get_char(b - 1))
        invariant
            a <= b <= len,
            len == s@.len(),
            forall|j: int| b <= j < len ==> char_is_space(s@[j]),
            !char_is_space(s@[a as int]),
        decreases b,
    {
        b -= 1;
    }
    proof {
        let t = s@.skip(a as int);
        assert(!char_is_space(t[0]));
        assert(t[(b - 1 - a) as int] == s@[b - 1]);
        lemma_trim_end_step(t, (b - 1 - a) as int);
        assert(t.take((b - a) as int) =~= s@.subrange(a as int, b as int));
    }
    let r = s.substring_char(a, b).to_owned();
    r
}

/// The end of the run of decimal digits starting at `i`.
pub open spec fn digit_run_end(s: Seq<char>, i: int) -> int
    decreases s.len() - i + 1,
{
    if i < 0 {
        i
    } else if i >= s.len() || !char_is_digit(s[i]) {
        i
    } else {
        digit_run_end(s, i + 1)
    }
}

pub proof fn lemma_digit_run_end(s: Seq<char>, i: int)
    requires
        0 <= i <= s.len(),
    ensures
        i <= digit_run_end(s, i) <= s.len(),
        forall|j: int| i <= j < digit_run_end(s, i) ==> char_is_digit(s[j]),
        digit_run_end(s, i) < s.len() ==> !char_is_digit(s[digit_run_end(s, i)]),
    decreases s.len() - i,
{
    if i < s.len() && char_is_digit(s[i]) {
        lemma_digit_run_end(s, i + 1);
    }
}

/// Scans forward from `i` over decimal digits.
pub fn scan_digits(s: &str, i: usize) -> (r: usize)
    requires
        i <= s@.len(),
    ensures
        r == digit_run_end(s@, i as int),
        i <= r <= s@.len(),
{
    let len = s.unicode_len();
    let mut j = i;
    while j < len && is_digit(s.get_char(j))
        invariant
            i <= j <= len,
            len == s@.len(),
            digit_run_end(s@, i as int) == digit_run_end(s@, j as int),
        decreases len - j,
    {
        proof {
            assert(digit_run_end(s@, j as int) == digit_run_end(s@, j as int + 1));
        }
        j += 1;
    }
    proof {
        assert(digit_run_end(s@, j as int) == j as int);
    }
    j
}

/// The end of the run of characters other than `'.'` starting at `i`.
pub open spec fn non_dot_run_end(s: Seq<char>, i: int) -> int
    decreases s.len() - i + 1,
{
    if i < 0 {
        i
    } else if i >= s.len() || s[i] == '.' {
        i
    } else {
        non_dot_run_end(s, i + 1)
    }
}

pub proof fn lemma_non_dot_run_end(s: Seq<char>, i: int)
    requires
        0 <= i <= s.len(),
    ensures
        i <= non_dot_run_end(s, i) <= s.len(),
        forall|j: int| i <= j < non_dot_run_end(s, i) ==> s[j] != '.',
        non_dot_run_end(s, i) < s.len() ==> s[non_dot_run_end(s, i)] == '.',
    decreases s.len() - i,
{
    if i < s.len() && s[i] != '.' {
        lemma_non_dot_run_end(s, i + 1);
    }
}

/// Scans forward from `i` over characters other than `'.'`.
pub fn scan_non_dot(s: &str, i: usize) -> (r: usize)
    requires
        i <= s@.len(),
    ensures
        r == non_dot_run_end(s@, i as int),
        i <= r <= s@.len(),
{
    let len = s.unicode_len();
    let mut j = i;
    while j < len && s.get_char(j) != '.'
        invariant
            i <= j <= len,
            len == s@.len(),
            non_dot_run_end(s@, i as int) == non_dot_run_end(s@, j as int),
        decreases len - j,
    {
        proof {
            assert(non_dot_run_end(s@, j as int) == non_dot_run_end(s@, j as int + 1));
        }
        j += 1;
    }
    proof {
        assert(non_dot_run_end(s@, j as int) == j as int);
    }
    j
}

/// The end of the run of non-whitespace characters starting at `i`.
pub open spec fn non_space_run_end(s: Seq<char>, i: int) -> int
    decreases s.len() - i + 1,
{
    if i < 0 {
        i
    } else if i >= s.len() || char_is_space(s[i]) {
        i
    } else {
        non_space_run_end(s, i + 1)
    }
}

pub proof fn lemma_non_space_run_end(s: Seq<char>, i: int)
    requires
        0 <= i <= s.len(),
    ensures
        i <= non_space_run_end(s, i) <= s.len(),
        forall|j: int| i <= j < non_space_run_end(s, i) ==> !char_is_space(s[j]),
        non_space_run_end(s, i) < s.len() ==> char_is_space(s[non_space_run_end(s, i)]),
    decreases s.len() - i,
{
    if i < s.len() && !char_is_space(s[i]) {
        lemma_non_space_run_end(s, i + 1);
    }
}

/// Scans forward from `i` over non-whitespace characters.
pub fn scan_non_space(s: &str, i: usize) -> (r: usize)
    requires
        i <= s@.len(),
    ensures
        r == non_space_run_end(s@, i as int),
        i <= r <= s@.len(),
{
    let len = s.unicode_len();
    let mut j = i;
    while j < len && !is_space(s.get_char(j))
        invariant
            i <= j <= len,
            len == s@.len(),
            non_space_run_end(s@, i as int) == non_space_run_end(s@, j as int),
        decreases len - j,
    {
        proof {
            assert(non_space_run_end(s@, j as int) == non_space_run_end(s@, j as int + 1));
        }
        j += 1;
    }
    proof {
        assert(non_space_run_end(s@, j as int) == j as int);
    }
    j
}

/// The line fragment with one trailing `'\r'` removed, if present.
pub open spec fn strip_cr(p: Seq<char>) -> Seq<char> {
    if p.len() > 0 && p[p.len() - 1] == '\r' {
        p.drop_last()
    } else {
        p
    }
}

/// The index of the `'\n'` that ends the line starting at `i`, or the length
/// of `s` if none follows.
pub open spec fn line_end(s: Seq<char>, i: int) -> int
    decreases s.len() - i,
{
    if i >= s.len() || s[i] == '\n' {
        i
    } else {
        line_end(s, i + 1)
    }
}

/// The lines of `s` starting at position `i`.
pub open spec fn spec_lines_from(s: Seq<char>, i: int) -> Seq<Seq<char>>
    decreases s.len() - i + 1,
    via spec_lines_from_decreases
{
    if i >= s.len() || i < 0 {
        Seq::empty()
    } else {
        let e = line_end(s, i);
        seq![strip_cr(s.subrange(i, e))] + spec_lines_from(s, e + 1)
    }
}

#[via_fn]
proof fn spec_lines_from_decreases(s: Seq<char>, i: int) {
    if !(i >= s.len() || i < 0) {
        lemma_line_end_bounds(s, i);
    }
}

/// The lines of `s`, as `str::lines` yields them.
pub open spec fn spec_lines(s: Seq<char>) -> Seq<Seq<char>> {
    spec_lines_from(s, 0)
}

pub proof fn lemma_line_end_bounds(s: Seq<char>, i: int)
    requires
        0 <= i <= s.len(),
    ensures
        i <= line_end(s, i) <= s.len(),
        line_end(s, i) < s.len() ==> s[line_end(s, i)] == '\n',
        forall|j: int| i <= j < line_end(s, i) ==> s[j] != '\n',
    decreases s.len() - i,
{
    if i < s.len() && s[i] != '\n' {
        lemma_line_end_bounds(s, i + 1);
    }
}

/// Splits `s` into lines.
pub fn split_lines(s: &str) -> (r: Vec<String>)
    ensures
        r.deep_view() == spec_lines(s@),
{
    let len = s.unicode_len();
    let mut r: Vec<String> = Vec::new();
    let mut i: usize = 0;
    while i < len
        invariant
            i <= len + 1,
            len == s@.len(),
            spec_lines(s@) == r.deep_view() + spec_lines_from(s@, i as int),
        decreases len - i,
    {
        // find the end of the current line
        let mut e: usize = i;
        while e < len && s.get_char(e) != '\n'
            invariant
                i <= e <= len,
                len == s@.len(),
                forall|j: int| i <= j < e ==> s@[j] != '\n',
            decreases len - e,
        {
            e += 1;
        }
        proof {
            lemma_line_end_bounds(s@, i as int);
            assert(line_end(s@, i as int) == e as int) by {
                if line_end(s@, i as int) < e as int {
                    assert(s@[line_end(s@, i as int)] == '\n');
                }
            }
        }
        // strip one trailing '\r'
        let piece_end = if e > i && s.get_char(e - 1) == '\r' {
            e - 1
        } else {
            e
        };
        let piece = s.substring_char(i, piece_end).to_owned();
        proof {
            if e > i && s@[e - 1] == '\r' {
                assert(s@.subrange(i as int, e as int - 1) =~= strip_cr(
                    s@.subrange(i as int, e as int),
                ));
            } else {
                assert(s@.subrange(i as int, e as int) =~= strip_cr(
                    s@.subrange(i as int, e as int),
                ));
            }
        }
        let ghost old_r = r.deep_view();
        r.push(piece);
        proof {
            assert(r.deep_view() =~= old_r + seq![piece@]);
            assert(r.deep_view() + spec_lines_from(s@, e as int + 1) =~= old_r + spec_lines_from(
                s@,
                i as int,
            ));
        }
        if e == len {
            proof {
                assert(spec_lines_from(s@, e as int + 1) =~= spec_lines_from(s@, len as int));
            }
            i = len;
        } else {
            i = e + 1;
        }
    }
    proof {
        assert(spec_lines_from(s@, i as int) =~= Seq::<Seq<char>>::empty());
        assert(spec_lines(s@) =~= r.deep_view());
    }
    r
}

/// Whether some string of `v` views equal to `x`.
pub fn vec_contains_str(v: &Vec<String>, x: &str) -> (r: bool)
    ensures
        r == v.deep_view().contains(x@),
{
    let mut i: usize = 0;
    while i < v.len()
        invariant
            i <= v@.len(),
            forall|j: int| 0 <= j < i ==> v@[j]@ != x@,
        decreases v@.len() - i,
    {
        if str_eq(v[i].as_str(), x) {
            proof {
                assert(v.deep_view()[i as int] == x@);
            }
            return true;
        }
        i += 1;
    }
    proof {
        assert forall|j: int| 0 <= j < v.deep_view().len() implies v.deep_view()[j] != x@ by {
            assert(v@[j]@ != x@);
        }
        if v.deep_view().contains(x@) {
            let j = choose|j: int| 0 <= j < v.deep_view().len() && v.deep_view()[j] == x@;
        }
    }
    false
}


/// A digit run ends exactly where the digits stop.
pub proof fn lemma_digit_run_end_is(s: Seq<char>, i: int, e: int)
    requires
        0 <= i <= e <= s.len(),
        forall|j: int| i <= j < e ==> char_is_digit(s[j]),
        e < s.len() ==> !char_is_digit(s[e]),
    ensures
        digit_run_end(s, i) == e,
    decreases e - i,
{
    if i < e {
        lemma_digit_run_end_is(s, i + 1, e);
    }
}

/// A dot-free run ends exactly at the next dot.
pub proof fn lemma_non_dot_run_end_is(s: Seq<char>, i: int, e: int)
    requires
        0 <= i <= e <= s.len(),
        forall|j: int| i <= j < e ==> s[j] != '.',
        e < s.len() ==> s[e] == '.',
    ensures
        non_dot_run_end(s, i) == e,
    decreases e - i,
{
    if i < e {
        lemma_non_dot_run_end_is(s, i + 1, e);
    }
}

/// A non-whitespace run ends exactly at the next whitespace.
pub proof fn lemma_non_space_run_end_is(s: Seq<char>, i: int, e: int)
    requires
        0 <= i <= e <= s.len(),
        forall|j: int| i <= j < e ==> !char_is_space(s[j]),
        e < s.len() ==> char_is_space(s[e]),
    ensures
        non_space_run_end(s, i) == e,
    decreases e - i,
{
    if i < e {
        lemma_non_space_run_end_is(s, i + 1, e);
    }
}


/// Splitting a suffix is splitting from a position: the lines from `i` are
/// the lines of the text from `i` on.
pub proof fn lemma_lines_from_shift(s: Seq<char>, i: int)
    requires
        0 <= i <= s.len(),
    ensures
        spec_lines_from(s, i) == spec_lines(s.skip(i)),
    decreases s.len() - i,
{
    let t = s.skip(i);
    if i >= s.len() {
        assert(spec_lines(t) =~= Seq::<Seq<char>>::empty());
    } else {
        let e = line_end(s, i);
        lemma_line_end_bounds(s, i);
        let et = line_end(t, 0);
        lemma_line_end_bounds(t, 0);
        assert(et == e - i) by {
            if et < e - i {
                assert(t[et] == s[i + et]);
                assert(s[i + et] != '\n');
            } else if et > e - i {
                assert(e < s.len());
                assert(t[e - i] == s[e]);
            }
        }
        assert(s.subrange(i, e) =~= t.subrange(0, et));
        if e == s.len() {
            assert(spec_lines_from(s, e + 1) =~= Seq::<Seq<char>>::empty());
            assert(spec_lines_from(t, et + 1) =~= Seq::<Seq<char>>::empty());
            assert(spec_lines_from(s, i) =~= seq![strip_cr(s.subrange(i, e))]);
            assert(spec_lines(t) =~= seq![strip_cr(t.subrange(0, et))]);
        } else {
            lemma_lines_from_shift(s, e + 1);
            lemma_lines_from_shift(t, et + 1);
            assert(t.skip(et + 1) =~= s.skip(e + 1));
        }
    }
}

} // verus!
