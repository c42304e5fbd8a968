//! The procedure/detail parser: reading a Supplemental file's `[list]`
//! section for procedure fingerprints and its detail-block headers for
//! detail fingerprints.

use vstd::prelude::*;
use crate::numbers::is_digit_seq;
use crate::text::{
    digit_run_end, is_prefix, is_suffix, lemma_digit_run_end, non_dot_run_end,
    non_space_run_end, scan_digits, scan_non_dot, scan_non_space, spec_lines, split_lines,
    starts_with_str, ends_with_str, vec_contains_str,
};

verus! {

/// The greatest `j < i` with `s[j] == '.'`, or -1 when there is none.
pub open spec fn last_dot_before(s: Seq<char>, i: int) -> int
    decreases i,
{
    if i <= 0 {
        -1
    } else if 0 <= i - 1 < s.len() && s[i - 1] == '.' {
        i - 1
    } else {
        last_dot_before(s, i - 1)
    }
}

pub proof fn lemma_last_dot_before(s: Seq<char>, i: int)
    requires
        0 <= i <= s.len(),
    ensures
        -1 <= last_dot_before(s, i) < i,
        last_dot_before(s, i) >= 0 ==> s[last_dot_before(s, i)] == '.',
        forall|j: int| last_dot_before(s, i) < j < i ==> s[j] != '.',
    decreases i,
{
    if i > 0 && !(s[i - 1] == '.') {
        lemma_last_dot_before(s, i - 1);
    }
}

/// Scans backward from just before `i` for the last `'.'`.
pub fn scan_last_dot(s: &str, i: usize) -> (r: Option<usize>)
    requires
        i <= s@.len(),
    ensures
        match r {
            Option::Some(j) => last_dot_before(s@, i as int) == j as int && j < i,
            Option::None => last_dot_before(s@, i as int) == -1,
        },
{
    let mut j = i;
    while j > 0
        invariant
            j <= i <= s@.len(),
            last_dot_before(s@, i as int) == last_dot_before(s@, j as int),
        decreases j,
    {
        if s.get_char(j - 1) == '.' {
            return Option::Some(j - 1);
        }
        j -= 1;
    }
    Option::None
}

/// The detail fingerprint of one full line of the form
/// `[transition.via.seqno]`: the interior must hold no whitespace, end in a
/// non-empty run of digits after its last dot, have a non-empty dot-free
/// `via` between its last two dots, and a non-empty `transition` before
/// them. The fingerprint is `transition ++ "." ++ via`.
pub open spec fn spec_parse_detail_line(l: Seq<char>) -> Option<Seq<char>> {
    if l.len() < 2 || l[0] != '[' || l[l.len() - 1] != ']' {
        Option::None
    } else {
        let inner = l.subrange(1, l.len() - 1);
        if non_space_run_end(inner, 0) != inner.len() {
            Option::None
        } else {
            let k2 = last_dot_before(inner, inner.len() as int);
            let k1 = last_dot_before(inner, k2);
            if k2 < 0 || k1 < 1 {
                Option::None
            } else if k2 <= k1 + 1 {
                Option::None
            } else if k2 + 1 >= inner.len() {
                Option::None
            } else if !is_digit_seq(inner.subrange(k2 + 1, inner.len() as int)) {
                Option::None
            } else {
                Option::Some(inner.take(k2))
            }
        }
    }
}

/// Reads one line as a detail-block header.
pub fn parse_detail_line(line: &str) -> (r: Option<String>)
    ensures
        r is None <==> spec_parse_detail_line(line@) is None,
        r is Some ==> spec_parse_detail_line(line@) == Option::Some(r.unwrap()@),
{
    let len = line.unicode_len();
    if len < 2 || line.get_char(0) != '[' || line.get_char(len - 1) != ']' {
        return Option::None;
    }
    let inner = line.substring_char(1, len - 1);
    let ilen = len - 2;
    proof {
        assert(inner@ == line@.subrange(1, line@.len() - 1));
        assert(inner@.len() == ilen);
    }
    if scan_non_space(inner, 0) != ilen {
        return Option::None;
    }
    let k2 = match scan_last_dot(inner, ilen) {
        Option::Some(j) => j,
        Option::None => {
            return Option::None;
        },
    };
    let k1 = match scan_last_dot(inner, k2) {
        Option::Some(j) => j,
        Option::None => {
            return Option::None;
        },
    };
    if k1 < 1 {
        return Option::None;
    }
    if k2 <= k1 + 1 {
        return Option::None;
    }
    if k2 + 1 >= ilen {
        return Option::None;
    }
    let digits = inner.substring_char(k2 + 1, ilen);
    let dend = scan_digits(digits, 0);
    if dend != ilen - (k2 + 1) {
        proof {
            lemma_digit_run_end(digits@, 0);
            assert(!is_digit_seq(digits@));
        }
        return Option::None;
    }
    proof {
        lemma_digit_run_end(digits@, 0);
        assert(is_digit_seq(digits@));
        assert(digits@ == inner@.subrange(k2 as int + 1, ilen as int));
    }
    let f = inner.substring_char(0, k2).to_owned();
    proof {
        assert(f@ =~= inner@.take(k2 as int));
    }
    Option::Some(f)
}

/// The per-line transition/via fingerprint of a `[list]` line as the leg
/// emitter's parser reads it: after `Procedure.<digits>=`, the following
/// run of non-whitespace characters split at its last interior dot.
pub open spec fn spec_parse_listed_line(l: Seq<char>) -> Option<Seq<char>> {
    let pre = "Procedure."@;
    if !is_prefix(pre, l) {
        Option::None
    } else {
        let p0 = pre.len() as int;
        let d_end = digit_run_end(l, p0);
        if d_end == p0 || d_end >= l.len() || l[d_end] != '=' {
            Option::None
        } else {
            let q = d_end + 1;
            let run_end = non_space_run_end(l, q);
            if run_end <= q {
                Option::None
            } else {
                let j = last_dot_before(l, run_end - 1);
                if j < q + 1 {
                    Option::None
                } else {
                    Option::Some(l.subrange(q, j) + seq!['.'] + l.subrange(j + 1, run_end))
                }
            }
        }
    }
}

/// Reads one `[list]` line as the leg emitter does.
pub fn parse_listed_line(line: &str) -> (r: Option<String>)
    ensures
        r is None <==> spec_parse_listed_line(line@) is None,
        r is Some ==> spec_parse_listed_line(line@) == Option::Some(r.unwrap()@),
{
    proof {
        reveal_strlit("Procedure.");
    }
    if !starts_with_str(line, "Procedure.") {
        return Option::None;
    }
    let len = line.unicode_len();
    let d_end = scan_digits(line, 10);
    if d_end == 10 || d_end >= len || line.get_char(d_end) != '=' {
        return Option::None;
    }
    let q = d_end + 1;
    let run_end = scan_non_space(line, q);
    if run_end <= q {
        return Option::None;
    }
    let j = match scan_last_dot(line, run_end - 1) {
        Option::Some(j) => j,
        Option::None => {
            return Option::None;
        },
    };
    if j < q + 1 {
        return Option::None;
    }
    let mut f = line.substring_char(q, j).to_owned();
    f.append(".");
    f.append(line.substring_char(j + 1, run_end));
    proof {
        reveal_strlit(".");
        assert(f@ =~= line@.subrange(q as int, j as int) + seq!['.'] + line@.subrange(
            j as int + 1,
            run_end as int,
        ));
    }
    Option::Some(f)
}

/// Appends an item unless it is already present.
pub open spec fn spec_dedup_push(acc: Seq<Seq<char>>, x: Seq<char>) -> Seq<Seq<char>> {
    if acc.contains(x) {
        acc
    } else {
        acc.push(x)
    }
}

/// The detail fingerprints of all lines, first occurrence of each kept, in
/// order.
pub open spec fn spec_details_acc(lines: Seq<Seq<char>>, acc: Seq<Seq<char>>) -> Seq<Seq<char>>
    decreases lines.len(),
{
    if lines.len() == 0 {
        acc
    } else {
        spec_details_acc(
            lines.drop_first(),
            match spec_parse_detail_line(lines[0]) {
                Option::Some(f) => spec_dedup_push(acc, f),
                Option::None => acc,
            },
        )
    }
}

/// The procedure fingerprints `icao.transition.via` of the lines of the
/// `[list]` window: lines after the first `[list]`-prefixed line and before
/// the next `[`-prefixed line.
pub open spec fn spec_procs_acc(
    icao: Seq<char>,
    lines: Seq<Seq<char>>,
    started: bool,
    acc: Seq<Seq<char>>,
) -> Seq<Seq<char>>
    decreases lines.len(),
{
    if lines.len() == 0 {
        acc
    } else if !started {
        spec_procs_acc(icao, lines.drop_first(), is_prefix("[list]"@, lines[0]), acc)
    } else if is_prefix("["@, lines[0]) {
        acc
    } else {
        spec_procs_acc(
            icao,
            lines.drop_first(),
            true,
            match spec_parse_listed_line(lines[0]) {
                Option::Some(f) => acc.push(icao + seq!['.'] + f),
                Option::None => acc,
            },
        )
    }
}

/// The extensions of files the parser reads.
pub open spec fn spec_parse_extension(s: Seq<char>) -> bool {
    ||| is_suffix(".app"@, s)
    ||| is_suffix(".apptrs"@, s)
    ||| is_suffix(".sid"@, s)
    ||| is_suffix(".sidtrs"@, s)
    ||| is_suffix(".star"@, s)
}

/// The file-name stem before the first dot.
pub open spec fn spec_stem(name: Seq<char>) -> Seq<char> {
    name.take(non_dot_run_end(name, 0))
}

/// Parses one Supplemental file: the procedure fingerprints of its `[list]`
/// section and the distinct detail fingerprints of its block headers. A file
/// whose extension is not read yields two empty collections.
pub fn parse_files(file_name: &str, content: &str) -> (r: (Vec<String>, Vec<String>))
    ensures
        !spec_parse_extension(file_name@) ==> r.0@.len() == 0 && r.1@.len() == 0,
        spec_parse_extension(file_name@) ==> r.0.deep_view() == spec_procs_acc(
            spec_stem(file_name@),
            spec_lines(content@),
            false,
            Seq::empty(),
        ),
        spec_parse_extension(file_name@) ==> r.1.deep_view() == spec_details_acc(
            spec_lines(content@),
            Seq::empty(),
        ),
{
    if !(ends_with_str(file_name, ".app") || ends_with_str(file_name, ".apptrs")
        || ends_with_str(file_name, ".sid") || ends_with_str(file_name, ".sidtrs")
        || ends_with_str(file_name, ".star")) {
        return (Vec::new(), Vec::new());
    }
    let stem_end = scan_non_dot(file_name, 0);
    let icao = file_name.substring_char(0, stem_end);
    proof {
        assert(icao@ == spec_stem(file_name@));
    }
    let lines = split_lines(content);
    let ghost all = lines.deep_view();

    // [list] window: procedure fingerprints
    let mut procs: Vec<String> = Vec::new();
    let mut started = false;
    let mut i: usize = 0;
    let mut stopped = false;
    proof {
        assert(all.skip(0) =~= all);
        assert(procs.deep_view() =~= Seq::<Seq<char>>::empty());
    }
    while i < lines.len() && !stopped
        invariant
            i <= all.len(),
            all == lines.deep_view(),
            all.len() == lines@.len(),
            forall|t: int| 0 <= t < all.len() ==> all[t] == #[trigger] lines@[t]@,
            !stopped ==> spec_procs_acc(icao@, all, false, Seq::empty()) == spec_procs_acc(
                icao@,
                all.skip(i as int),
                started,
                procs.deep_view(),
            ),
            stopped ==> spec_procs_acc(icao@, all, false, Seq::empty()) == procs.deep_view(),
        decreases all.len() - i,
    {
        proof {
            assert(all.skip(i as int)[0] == all[i as int]);
            assert(all.skip(i as int).drop_first() =~= all.skip(i as int + 1));
        }
        if !started {
            started = starts_with_str(lines[i].as_str(), "[list]");
        } else if starts_with_str(lines[i].as_str(), "[") {
            stopped = true;
        } else {
            match parse_listed_line(lines[i].as_str()) {
                Option::Some(f) => {
                    let mut entry = icao.to_owned();
                    entry.append(".");
                    entry.append(f.as_str());
                    proof {
                        reveal_strlit(".");
                        assert(entry@ =~= icao@ + seq!['.'] + f@);
                    }
                    let ghost pre = procs.deep_view();
                    procs.push(entry);
                    proof {
                        assert(procs.deep_view() =~= pre.push(icao@ + seq!['.'] + f@));
                    }
                },
                Option::None => {},
            }
        }
        i += 1;
    }
    proof {
        if !stopped {
            assert(all.skip(i as int) =~= Seq::<Seq<char>>::empty());
        }
    }

    // detail fingerprints, anywhere in the file, deduplicated
    let mut details: Vec<String> = Vec::new();
    let mut j: usize = 0;
    proof {
        assert(all.skip(0) =~= all);
        assert(details.deep_view() =~= Seq::<Seq<char>>::empty());
    }
    while j < lines.len()
        invariant
            j <= all.len(),
            all == lines.deep_view(),
            all.len() == lines@.len(),
            forall|t: int| 0 <= t < all.len() ==> all[t] == #[trigger] lines@[t]@,
            spec_details_acc(all, Seq::empty()) == spec_details_acc(
                all.skip(j as int),
                details.deep_view(),
            ),
        decreases all.len() - j,
    {
        proof {
            assert(all.skip(j as int)[0] == all[j as int]);
            assert(all.skip(j as int).drop_first() =~= all.skip(j as int + 1));
        }
        match parse_detail_line(lines[j].as_str()) {
            Option::Some(f) => {
                let ghost fv = f@;
                proof {
                    assert(spec_parse_detail_line(all[j as int]) == Option::Some(fv));
                }
                if !vec_contains_str(&details, f.as_str()) {
                    let ghost pre = details.deep_view();
                    details.push(f);
                    proof {
                        assert(details.deep_view() =~= pre.push(fv));
                        assert(spec_dedup_push(pre, fv) == details.deep_view());
                    }
                }
            },
            Option::None => {},
        }
        j += 1;
    }
    proof {
        assert(all.skip(j as int) =~= Seq::<Seq<char>>::empty());
    }
    (procs, details)
}


/// The last dot before `i` is the dot no later dot follows.
pub proof fn lemma_last_dot_at(s: Seq<char>, i: int, j: int)
    requires
        0 <= j < i <= s.len(),
        s[j] == '.',
        forall|k: int| j < k < i ==> s[k] != '.',
    ensures
        last_dot_before(s, i) == j,
    decreases i,
{
    if i - 1 > j {
        lemma_last_dot_at(s, i - 1, j);
    }
}


/// Round trip into the leg emitter: a `Procedure.N=key` line the list
/// writer renders is read back by the emitter's parser as exactly `key`,
/// for a whitespace-free key with an interior dot.
pub proof fn lemma_listed_line_round_trip(key: Seq<char>, num: nat)
    requires
        non_space_run_end(key, 0) == key.len(),
        1 <= last_dot_before(key, key.len() - 1),
    ensures
        spec_parse_listed_line(crate::listing::spec_proc_line((key, num))) == Option::Some(key),
{
    let pre = "Procedure."@;
    let d = crate::numbers::spec_digits(num);
    let l = crate::listing::spec_proc_line((key, num));
    let p = last_dot_before(key, key.len() - 1);
    crate::numbers::lemma_spec_digits_shape(num);
    crate::text::lemma_non_space_run_end(key, 0);
    lemma_last_dot_before(key, key.len() - 1);
    proof_emitter_strlits();
    let dl = d.len() as int;
    assert(l.len() == 10 + dl + 1 + key.len());
    assert forall|j: int| 0 <= j < 10 implies l[j] == pre[j] by {}
    assert(is_prefix(pre, l));
    assert forall|j: int| 10 <= j < 10 + dl implies crate::text::char_is_digit(l[j]) by {
        assert(l[j] == d[j - 10]);
    }
    assert(l[10 + dl] == '=');
    crate::text::lemma_digit_run_end_is(l, 10, 10 + dl);
    let q = 10 + dl + 1;
    assert forall|j: int| q <= j < l.len() implies !crate::text::char_is_space(l[j]) by {
        assert(l[j] == key[j - q]);
    }
    crate::text::lemma_non_space_run_end_is(l, q, l.len() as int);
    assert(l[q + p] == key[p]);
    assert(key[p] == '.');
    assert forall|k: int| q + p < k < l.len() - 1 implies l[k] != '.' by {
        assert(l[k] == key[k - q]);
    }
    lemma_last_dot_at(l, l.len() - 1, q + p);
    assert(l.subrange(q, q + p) + seq!['.'] + l.subrange(q + p + 1, l.len() as int) =~= key);
}

proof fn proof_emitter_strlits()
    ensures
        "Procedure."@.len() == 10,
        "="@.len() == 1,
        "="@[0] == '=',
{
    reveal_strlit("Procedure.");
    reveal_strlit("=");
}

} // verus!
