//! The procedure-list writer: parsing a file's existing `Procedure.N=key`
//! lines, assigning stable sequence numbers to new keys, and rendering the
//! rewritten `[list]` section.

use vstd::prelude::*;
use crate::numbers::{digits_value, is_digit_seq, parse_u32, spec_digits, u64_to_string};
use crate::records::TerminalRecord;
use crate::text::{
    char_is_digit, char_is_space, digit_run_end, is_prefix, lemma_digit_run_end,
    lemma_non_dot_run_end, lemma_non_space_run_end, non_dot_run_end, non_space_run_end,
    scan_digits, scan_non_dot, scan_non_space, spec_lines, spec_trim, split_lines,
    starts_with_str, trim_str, str_eq,
};

verus! {

/// Left-pads with `'0'` to `width` characters; a string already at least
/// `width` long is unchanged.
pub open spec fn spec_zfill(s: Seq<char>, width: nat) -> Seq<char> {
    if s.len() >= width {
        s
    } else {
        Seq::new((width - s.len()) as nat, |_i: int| '0') + s
    }
}

/// Left-pads `s` with `'0'` up to `width` characters.
pub fn zfill(s: &str, width: usize) -> (r: String)
    ensures
        r@ == spec_zfill(s@, width as nat),
{
    let len = s.unicode_len();
    if len >= width {
        s.to_owned()
    } else {
        let mut pad = String::new();
        let mut k: usize = width - len;
        while k > 0
            invariant
                k <= width - len,
                len == s@.len(),
                len < width,
                pad@.len() == width - len - k,
                forall|j: int| 0 <= j < pad@.len() ==> pad@[j] == '0',
            decreases k,
        {
            proof {
                reveal_strlit("0");
            }
            pad.append("0");
            k -= 1;
        }
        pad.append(s);
        proof {
            assert(pad@ =~= spec_zfill(s@, width as nat));
        }
        pad
    }
}

/// Runway padding: a padded runway is as wide as the pad or as the input,
/// whichever is greater; a runway of at most two characters comes out
/// exactly two characters wide.
pub proof fn lemma_zfill_width(s: Seq<char>, width: nat)
    ensures
        spec_zfill(s, width).len() == (if s.len() >= width {
            s.len()
        } else {
            width
        }),
        s.len() <= 2 ==> spec_zfill(s, 2).len() == 2,
{
}

/// The result of reading one line as `Procedure.<digits>=<name>.<rwy>`:
/// `name` runs to the first `'.'` after the `'='`, `rwy` is the following
/// run of non-whitespace characters, and the entry is the key
/// `name ++ "." ++ rwy` with the numeric value of the digits. `None` when
/// the line does not have that shape or the number does not fit in 32 bits.
pub open spec fn spec_parse_proc_line(l: Seq<char>) -> Option<(Seq<char>, nat)> {
    let pre = "Procedure."@;
    if !is_prefix(pre, l) {
        Option::None
    } else {
        let p0 = pre.len() as int;
        let d_end = digit_run_end(l, p0);
        if d_end == p0 || d_end >= l.len() || l[d_end] != '=' {
            Option::None
        } else {
            let n_start = d_end + 1;
            let n_end = non_dot_run_end(l, n_start);
            if n_end == n_start || n_end >= l.len() {
                Option::None
            } else {
                let r_start = n_end + 1;
                let r_end = non_space_run_end(l, r_start);
                if r_end == r_start {
                    Option::None
                } else {
                    let num = digits_value(l.subrange(p0, d_end));
                    if num > u32::MAX {
                        Option::None
                    } else {
                        Option::Some(
                            (
                                l.subrange(n_start, n_end) + seq!['.'] + l.subrange(r_start, r_end),
                                num,
                            ),
                        )
                    }
                }
            }
        }
    }
}

/// Reads one `Procedure.N=name.rwy` line.
pub fn parse_proc_line(line: &str) -> (r: Option<(String, u32)>)
    ensures
        r is None <==> spec_parse_proc_line(line@) is None,
        r is Some ==> spec_parse_proc_line(line@) == Option::Some(
            (r.unwrap().0@, r.unwrap().1 as nat),
        ),
{
    proof {
        reveal_strlit("Procedure.");
    }
    if !starts_with_str(line, "Procedure.") {
        return Option::None;
    }
    let len = line.unicode_len();
    let d_end = scan_digits(line, 10);
    if d_end == 10 || d_end >= len || line.get_char(d_end) != '=' {
        return Option::None;
    }
    let n_start = d_end + 1;
    let n_end = scan_non_dot(line, n_start);
    if n_end == n_start || n_end >= len {
        return Option::None;
    }
    let r_start = n_end + 1;
    let r_end = scan_non_space(line, r_start);
    if r_end == r_start {
        return Option::None;
    }
    let digits = line.substring_char(10, d_end);
    proof {
        lemma_digit_run_end(line@, 10);
        assert(digits@.len() > 0);
        assert(is_digit_seq(digits@));
    }
    let num = match parse_u32(digits) {
        Option::Some(v) => v,
        Option::None => {
            return Option::None;
        },
    };
    let mut key = line.substring_char(n_start, n_end).to_owned();
    key.append(".");
    key.append(line.substring_char(r_start, r_end));
    proof {
        reveal_strlit(".");
        assert(key@ =~= line@.subrange(n_start as int, n_end as int) + seq!['.'] + line@.subrange(
            r_start as int,
            r_end as int,
        ));
    }
    Option::Some((key, num))
}

/// The entries parsed from a sequence of lines, in line order.
pub open spec fn spec_entries(lines: Seq<Seq<char>>) -> Seq<(Seq<char>, nat)>
    decreases lines.len(),
{
    if lines.len() == 0 {
        Seq::empty()
    } else {
        spec_entries(lines.drop_last()) + (match spec_parse_proc_line(lines.last()) {
            Option::Some(e) => seq![e],
            Option::None => Seq::empty(),
        })
    }
}

/// The greatest sequence number among the entries (0 when there are none).
pub open spec fn spec_max_entry(entries: Seq<(Seq<char>, nat)>) -> nat
    decreases entries.len(),
{
    if entries.len() == 0 {
        0
    } else {
        let m = spec_max_entry(entries.drop_last());
        if entries.last().1 > m {
            entries.last().1
        } else {
            m
        }
    }
}

/// Inserts an entry into a sequence after every entry whose number is not
/// greater, so that repeated insertion is a stable ascending sort by number.
pub open spec fn spec_insert_entry(s: Seq<(Seq<char>, nat)>, e: (Seq<char>, nat)) -> Seq<
    (Seq<char>, nat),
>
    decreases s.len(),
{
    if s.len() == 0 {
        seq![e]
    } else if e.1 < s[0].1 {
        seq![e] + s
    } else {
        seq![s[0]] + spec_insert_entry(s.drop_first(), e)
    }
}

/// Stable ascending sort of entries by sequence number.
pub open spec fn spec_sort_entries(s: Seq<(Seq<char>, nat)>) -> Seq<(Seq<char>, nat)>
    decreases s.len(),
{
    if s.len() == 0 {
        Seq::empty()
    } else {
        spec_insert_entry(spec_sort_entries(s.drop_last()), s.last())
    }
}

/// The view of executable entries at the specification level.
pub open spec fn entry_views(s: Seq<(String, u64)>) -> Seq<(Seq<char>, nat)> {
    Seq::new(s.len(), |i: int| (s[i].0@, s[i].1 as nat))
}

proof fn lemma_insert_entry_at(s: Seq<(Seq<char>, nat)>, e: (Seq<char>, nat), pos: int)
    requires
        0 <= pos <= s.len(),
        forall|j: int| 0 <= j < pos ==> s[j].1 <= e.1,
        pos < s.len() ==> s[pos].1 > e.1,
    ensures
        spec_insert_entry(s, e) == s.take(pos) + seq![e] + s.skip(pos),
    decreases pos,
{
    if pos == 0 {
        assert(spec_insert_entry(s, e) =~= s.take(0) + seq![e] + s.skip(0));
    } else {
        lemma_insert_entry_at(s.drop_first(), e, pos - 1);
        assert(s.drop_first().take(pos - 1) =~= s.take(pos).drop_first());
        assert(s.drop_first().skip(pos - 1) =~= s.skip(pos));
        assert(seq![s[0]] + spec_insert_entry(s.drop_first(), e) =~= s.take(pos) + seq![e] + s.skip(
            pos,
        ));
    }
}

/// Inserts an entry into an ascending vector, after equals.
fn insert_entry(v: &mut Vec<(String, u64)>, e: (String, u64))
    ensures
        entry_views(final(v)@) == spec_insert_entry(entry_views(old(v)@), (e.0@, e.1 as nat)),
{
    let mut pos: usize = 0;
    while pos < v.len() && v[pos].1 <= e.1
        invariant
            pos <= v@.len(),
            forall|j: int| 0 <= j < pos ==> v@[j].1 <= e.1,
            v == old(v),
        decreases v@.len() - pos,
    {
        pos += 1;
    }
    proof {
        lemma_insert_entry_at(entry_views(v@), (e.0@, e.1 as nat), pos as int);
    }
    let ghost pre = v@;
    v.insert(pos, e);
    proof {
        assert(entry_views(v@) =~= entry_views(pre).take(pos as int) + seq![(e.0@, e.1 as nat)]
            + entry_views(pre).skip(pos as int));
    }
}

/// Parses every `Procedure.N=name.rwy` line of `content`, and returns the
/// entries sorted ascending by sequence number (stably), together with the
/// greatest sequence number seen plus one.
pub fn parse_and_sort_procedures(content: &str) -> (r: (Vec<(String, u64)>, u64))
    ensures
        entry_views(r.0@) == spec_sort_entries(spec_entries(spec_lines(content@))),
        r.1 == spec_max_entry(spec_entries(spec_lines(content@))) + 1,
{
    let lines = split_lines(content);
    let ghost all = lines.deep_view();
    let mut entries: Vec<(String, u64)> = Vec::new();
    let mut max_seq: u32 = 0;
    let mut i: usize = 0;
    while i < lines.len()
        invariant
            i <= lines@.len(),
            all == lines.deep_view(),
            all.len() == lines@.len(),
            forall|j: int| 0 <= j < all.len() ==> all[j] == #[trigger] lines@[j]@,
            entry_views(entries@) == spec_entries(all.take(i as int)),
            max_seq as nat == spec_max_entry(spec_entries(all.take(i as int))),
        decreases lines@.len() - i,
    {
        let ghost prefix = all.take(i as int);
        proof {
            assert(all.take(i as int + 1).drop_last() =~= prefix);
            assert(all.take(i as int + 1).last() == all[i as int]);
        }
        match parse_proc_line(lines[i].as_str()) {
            Option::Some((key, num)) => {
                let ghost pre_entries = entry_views(entries@);
                if num > max_seq {
                    max_seq = num;
                }
                entries.push((key, num as u64));
                proof {
                    assert(entry_views(entries@) =~= pre_entries + seq![(key@, num as nat)]);
                    let ext = spec_entries(prefix) + seq![(key@, num as nat)];
                    assert(spec_entries(all.take(i as int + 1)) =~= ext);
                    assert(ext.drop_last() =~= spec_entries(prefix));
                    assert(ext.last() == (key@, num as nat));
                }
            },
            Option::None => {
                proof {
                    assert(spec_entries(all.take(i as int + 1)) =~= spec_entries(prefix));
                }
            },
        }
        i += 1;
    }
    proof {
        assert(all.take(i as int) =~= all);
    }
    let sorted = sort_entries(&entries);
    (sorted, max_seq as u64 + 1)
}

/// Stable ascending sort of executable entries by number.
fn sort_entries(entries: &Vec<(String, u64)>) -> (r: Vec<(String, u64)>)
    ensures
        entry_views(r@) == spec_sort_entries(entry_views(entries@)),
{
    let mut sorted: Vec<(String, u64)> = Vec::new();
    let mut k: usize = 0;
    while k < entries.len()
        invariant
            k <= entries@.len(),
            entry_views(sorted@) == spec_sort_entries(entry_views(entries@).take(k as int)),
        decreases entries@.len() - k,
    {
        let e = (entries[k].0.clone(), entries[k].1);
        proof {
            assert(entry_views(entries@).take(k as int + 1).drop_last() =~= entry_views(
                entries@,
            ).take(k as int));
            assert(entry_views(entries@).take(k as int + 1).last() == (e.0@, e.1 as nat));
        }
        insert_entry(&mut sorted, e);
        k += 1;
    }
    proof {
        assert(entry_views(entries@).take(k as int) =~= entry_views(entries@));
    }
    sorted
}

/// Whether the dictionary holds the key.
pub open spec fn dict_has_key(d: Seq<(Seq<char>, nat)>, k: Seq<char>) -> bool {
    exists|i: int| 0 <= i < d.len() && d[i].0 == k
}

/// Inserts an entry into a keyed dictionary: an existing key keeps its
/// position and takes the new number; a new key is appended.
pub open spec fn spec_dict_insert(d: Seq<(Seq<char>, nat)>, e: (Seq<char>, nat)) -> Seq<
    (Seq<char>, nat),
>
    decreases d.len(),
{
    if d.len() == 0 {
        seq![e]
    } else if d[0].0 == e.0 {
        seq![e] + d.drop_first()
    } else {
        seq![d[0]] + spec_dict_insert(d.drop_first(), e)
    }
}

/// The dictionary built from the entries in order; a repeated key keeps the
/// number of its last occurrence.
pub open spec fn spec_dict_of(entries: Seq<(Seq<char>, nat)>) -> Seq<(Seq<char>, nat)>
    decreases entries.len(),
{
    if entries.len() == 0 {
        Seq::empty()
    } else {
        spec_dict_insert(spec_dict_of(entries.drop_last()), entries.last())
    }
}

/// The `[list]` key of a terminal record: its name, a dot, and its runway
/// zero-padded to two characters. A record without a runway has no key.
pub open spec fn spec_record_key(rec: TerminalRecord) -> Option<Seq<char>> {
    match rec.rwy {
        Option::Some(r) => Option::Some(rec.name@ + seq!['.'] + spec_zfill(r@, 2)),
        Option::None => Option::None,
    }
}

/// Walks the records in order and appends each record key that the
/// dictionary does not hold yet, numbering from `next` upward.
pub open spec fn spec_assign(
    d: Seq<(Seq<char>, nat)>,
    data: Seq<TerminalRecord>,
    next: nat,
) -> Seq<(Seq<char>, nat)>
    decreases data.len(),
{
    if data.len() == 0 {
        d
    } else {
        match spec_record_key(data[0]) {
            Option::Some(k) => if !dict_has_key(d, k) {
                spec_assign(d.push((k, next)), data.drop_first(), next + 1)
            } else {
                spec_assign(d, data.drop_first(), next)
            },
            Option::None => spec_assign(d, data.drop_first(), next),
        }
    }
}

/// The `Procedure.N=key` line for one dictionary entry.
pub open spec fn spec_proc_line(e: (Seq<char>, nat)) -> Seq<char> {
    "Procedure."@ + spec_digits(e.1) + "="@ + e.0
}

/// The rendered procedure lines, one per dictionary entry whose key contains
/// a dot (splitting at the first dot and rejoining reproduces the key).
pub open spec fn spec_render_lines(d: Seq<(Seq<char>, nat)>) -> Seq<Seq<char>>
    decreases d.len(),
{
    if d.len() == 0 {
        Seq::empty()
    } else {
        spec_render_lines(d.drop_last()) + (if non_dot_run_end(d.last().0, 0) < d.last().0.len() {
            seq![spec_proc_line(d.last())]
        } else {
            Seq::empty()
        })
    }
}

/// The lines after the first line whose trim is exactly `[list]`.
pub open spec fn spec_after_list(lines: Seq<Seq<char>>) -> Seq<Seq<char>>
    decreases lines.len(),
{
    if lines.len() == 0 {
        Seq::empty()
    } else if spec_trim(lines[0]) == "[list]"@ {
        lines.drop_first()
    } else {
        spec_after_list(lines.drop_first())
    }
}

/// The lines that do not begin with `Procedure.`.
pub open spec fn spec_non_proc(lines: Seq<Seq<char>>) -> Seq<Seq<char>>
    decreases lines.len(),
{
    if lines.len() == 0 {
        Seq::empty()
    } else if is_prefix("Procedure."@, lines[0]) {
        spec_non_proc(lines.drop_first())
    } else {
        seq![lines[0]] + spec_non_proc(lines.drop_first())
    }
}

/// Each line of `lines` preceded by a newline.
pub open spec fn spec_join_nl(lines: Seq<Seq<char>>) -> Seq<char>
    decreases lines.len(),
{
    if lines.len() == 0 {
        Seq::<char>::empty()
    } else {
        spec_join_nl(lines.drop_last()) + seq!['\n'] + lines.last()
    }
}

/// The full rewritten content of one procedure file: the `[list]` marker,
/// the existing entries followed by newly assigned ones in ascending number
/// order, then the original content after its `[list]` section with its old
/// `Procedure.` lines removed.
pub open spec fn spec_list_file_content(c: Seq<char>, data: Seq<TerminalRecord>) -> Seq<char> {
    let entries = spec_entries(spec_lines(c));
    let dict = spec_dict_of(spec_sort_entries(entries));
    let assigned = spec_assign(dict, data, spec_max_entry(entries) + 1);
    let body = spec_render_lines(spec_sort_entries(assigned)) + spec_non_proc(
        spec_after_list(spec_lines(c)),
    );
    "[list]"@ + spec_join_nl(body)
}

proof fn lemma_dict_insert_found(d: Seq<(Seq<char>, nat)>, e: (Seq<char>, nat), pos: int)
    requires
        0 <= pos < d.len(),
        forall|j: int| 0 <= j < pos ==> d[j].0 != e.0,
        d[pos].0 == e.0,
    ensures
        spec_dict_insert(d, e) == d.update(pos, e),
    decreases pos,
{
    if pos == 0 {
        assert(spec_dict_insert(d, e) =~= d.update(0, e));
    } else {
        lemma_dict_insert_found(d.drop_first(), e, pos - 1);
        assert(d.drop_first().update(pos - 1, e) =~= d.update(pos, e).drop_first());
        assert(seq![d[0]] + spec_dict_insert(d.drop_first(), e) =~= d.update(pos, e));
    }
}

proof fn lemma_dict_insert_missing(d: Seq<(Seq<char>, nat)>, e: (Seq<char>, nat))
    requires
        forall|j: int| 0 <= j < d.len() ==> d[j].0 != e.0,
    ensures
        spec_dict_insert(d, e) == d.push(e),
    decreases d.len(),
{
    if d.len() == 0 {
        assert(spec_dict_insert(d, e) =~= d.push(e));
    } else {
        lemma_dict_insert_missing(d.drop_first(), e);
        assert(seq![d[0]] + d.drop_first().push(e) =~= d.push(e));
    }
}

/// Inserts one entry into the executable dictionary, mirroring
/// `spec_dict_insert`.
fn dict_insert(d: &mut Vec<(String, u64)>, e: (String, u64))
    ensures
        entry_views(final(d)@) == spec_dict_insert(entry_views(old(d)@), (e.0@, e.1 as nat)),
{
    let mut pos: usize = 0;
    while pos < d.len()
        invariant
            pos <= d@.len(),
            forall|j: int| 0 <= j < pos ==> d@[j].0@ != e.0@,
            d == old(d),
        decreases d@.len() - pos,
    {
        if str_eq(d[pos].0.as_str(), e.0.as_str()) {
            proof {
                lemma_dict_insert_found(entry_views(d@), (e.0@, e.1 as nat), pos as int);
            }
            let ghost pre = d@;
            d.set(pos, e);
            proof {
                assert(entry_views(d@) =~= entry_views(pre).update(
                    pos as int,
                    (d@[pos as int].0@, d@[pos as int].1 as nat),
                ));
            }
            return ;
        }
        pos += 1;
    }
    proof {
        lemma_dict_insert_missing(entry_views(d@), (e.0@, e.1 as nat));
    }
    let ghost pre = d@;
    d.push(e);
    proof {
        assert(entry_views(d@) =~= entry_views(pre).push((e.0@, e.1 as nat)));
    }
}

/// Every number parsed from a line fits in 32 bits.
proof fn lemma_entries_bounded(lines: Seq<Seq<char>>)
    ensures
        forall|i: int|
            0 <= i < spec_entries(lines).len() ==> (#[trigger] spec_entries(lines)[i]).1
                <= u32::MAX,
    decreases lines.len(),
{
    if lines.len() > 0 {
        lemma_entries_bounded(lines.drop_last());
        let pre = spec_entries(lines.drop_last());
        assert forall|i: int| 0 <= i < spec_entries(lines).len() implies (
        #[trigger] spec_entries(lines)[i]).1 <= u32::MAX by {
            if i < pre.len() {
                assert(spec_entries(lines)[i] == pre[i]);
            } else {
                assert(spec_parse_proc_line(lines.last()) is Some);
                assert(spec_entries(lines)[i] == spec_parse_proc_line(lines.last()).unwrap());
            }
        }
    }
}

/// Whether the executable dictionary holds the key.
fn dict_contains(d: &Vec<(String, u64)>, k: &str) -> (r: bool)
    ensures
        r == dict_has_key(entry_views(d@), k@),
{
    let mut pos: usize = 0;
    while pos < d.len()
        invariant
            pos <= d@.len(),
            forall|j: int| 0 <= j < pos ==> d@[j].0@ != k@,
        decreases d@.len() - pos,
    {
        if str_eq(d[pos].0.as_str(), k) {
            proof {
                assert(entry_views(d@)[pos as int].0 == k@);
            }
            return true;
        }
        pos += 1;
    }
    proof {
        assert forall|i: int| 0 <= i < entry_views(d@).len() implies entry_views(d@)[i].0
            != k@ by {
            assert(d@[i].0@ != k@);
        }
    }
    false
}

/// Renders `Procedure.N=key`.
fn proc_line_string(key: &str, num: u64) -> (r: String)
    ensures
        r@ == spec_proc_line((key@, num as nat)),
{
    let mut s = String::new();
    s.append("Procedure.");
    s.append(u64_to_string(num).as_str());
    s.append("=");
    s.append(key);
    proof {
        assert(s@ =~= spec_proc_line((key@, num as nat)));
    }
    s
}

/// The preserved tail of an existing file: its lines after the first line
/// whose trim is `[list]`, with `Procedure.` lines removed.
fn after_list_tail(lines: &Vec<String>) -> (r: Vec<String>)
    ensures
        r.deep_view() == spec_non_proc(spec_after_list(lines.deep_view())),
{
    let ghost all = lines.deep_view();
    proof {
        assert(all.skip(0) =~= all);
    }
    let mut i: usize = 0;
    while i < lines.len()
        invariant
            i <= all.len(),
            all == lines.deep_view(),
            all.len() == lines@.len(),
            forall|t: int| 0 <= t < all.len() ==> all[t] == #[trigger] lines@[t]@,
            spec_after_list(all) == spec_after_list(all.skip(i as int)),
        decreases all.len() - i,
    {
        let trimmed = trim_str(lines[i].as_str());
        proof {
            assert(all.skip(i as int)[0] == all[i as int]);
            assert(all.skip(i as int).drop_first() =~= all.skip(i as int + 1));
        }
        if str_eq(trimmed.as_str(), "[list]") {
            let ghost after = all.skip(i as int + 1);
            proof {
                assert(spec_after_list(all) == after);
            }
            let mut out: Vec<String> = Vec::new();
            let mut j: usize = i + 1;
            proof {
                assert(spec_non_proc(after) =~= out.deep_view() + spec_non_proc(
                    all.skip(j as int),
                ));
            }
            while j < lines.len()
                invariant
                    j <= all.len(),
                    all == lines.deep_view(),
                    all.len() == lines@.len(),
                    forall|t: int| 0 <= t < all.len() ==> all[t] == #[trigger] lines@[t]@,
                    spec_non_proc(after) == out.deep_view() + spec_non_proc(all.skip(j as int)),
                decreases all.len() - j,
            {
                proof {
                    reveal_strlit("Procedure.");
                    assert(all.skip(j as int)[0] == all[j as int]);
                    assert(all.skip(j as int).drop_first() =~= all.skip(j as int + 1));
                }
                if !starts_with_str(lines[j].as_str(), "Procedure.") {
                    let ghost pre = out.deep_view();
                    out.push(lines[j].clone());
                    proof {
                        assert(out.deep_view() =~= pre + seq![all[j as int]]);
                        assert(pre + seq![all[j as int]] + spec_non_proc(all.skip(j as int + 1))
                            =~= pre + spec_non_proc(all.skip(j as int)));
                    }
                }
                j += 1;
            }
            proof {
                assert(all.skip(j as int) =~= Seq::<Seq<char>>::empty());
                assert(spec_non_proc(after) =~= out.deep_view());
            }
            return out;
        }
        i += 1;
    }
    proof {
        assert(all.skip(i as int) =~= Seq::<Seq<char>>::empty());
        assert(spec_non_proc(spec_after_list(all)) =~= Seq::<Seq<char>>::empty());
    }
    Vec::new()
}

/// Rewrites one procedure file's content: parses the existing `[list]`
/// entries, keeps their numbers, assigns fresh ascending numbers to the keys
/// of `data` not yet listed, and emits the `[list]` section followed by the
/// original non-list tail.
pub fn list_file_content(existing: &str, data: &Vec<TerminalRecord>) -> (r: String)
    requires
        data@.len() <= 0x1000_0000_0000_0000,
    ensures
        r@ == spec_list_file_content(existing@, data@),
{
    let ghost entries_g = spec_entries(spec_lines(existing@));
    let (sorted_entries, next0) = parse_and_sort_procedures(existing);
    proof {
        lemma_entries_bounded(spec_lines(existing@));
        lemma_max_entry_le(entries_g, u32::MAX as nat);
    }
    // collapse sorted entries into a dictionary; a repeated key keeps the
    // number of its last (largest-numbered) occurrence
    let mut dict: Vec<(String, u64)> = Vec::new();
    let ghost sv = entry_views(sorted_entries@);
    let mut k: usize = 0;
    while k < sorted_entries.len()
        invariant
            k <= sv.len(),
            sv == entry_views(sorted_entries@),
            sv.len() == sorted_entries@.len(),
            entry_views(dict@) == spec_dict_of(sv.take(k as int)),
        decreases sv.len() - k,
    {
        let e = (sorted_entries[k].0.clone(), sorted_entries[k].1);
        proof {
            assert(sv.take(k as int + 1).drop_last() =~= sv.take(k as int));
            assert(sv.take(k as int + 1).last() == (e.0@, e.1 as nat));
        }
        dict_insert(&mut dict, e);
        k += 1;
    }
    proof {
        assert(sv.take(k as int) =~= sv);
    }
    let ghost dict0 = entry_views(dict@);
    // assign fresh numbers to new keys of the records, in record order
    let mut next: u64 = next0;
    let mut i: usize = 0;
    proof {
        assert(data@.skip(0) =~= data@);
    }
    while i < data.len()
        invariant
            i <= data@.len(),
            data@.len() <= 0x1000_0000_0000_0000,
            next0 <= 0x1_0000_0000,
            next as nat <= next0 as nat + i as nat,
            spec_assign(dict0, data@, next0 as nat) == spec_assign(
                entry_views(dict@),
                data@.skip(i as int),
                next as nat,
            ),
        decreases data@.len() - i,
    {
        proof {
            assert(data@.skip(i as int)[0] == data@[i as int]);
            assert(data@.skip(i as int).drop_first() =~= data@.skip(i as int + 1));
        }
        let rec = &data[i];
        match &rec.rwy {
            Option::Some(rw) => {
                let mut key = rec.name.clone();
                key.append(".");
                key.append(zfill(rw.as_str(), 2).as_str());
                proof {
                    reveal_strlit(".");
                    assert(key@ =~= data@[i as int].name@ + seq!['.'] + spec_zfill(rw@, 2));
                    assert(spec_record_key(data@[i as int]) == Option::Some(key@));
                }
                if !dict_contains(&dict, key.as_str()) {
                    let ghost pre = entry_views(dict@);
                    dict.push((key, next));
                    proof {
                        assert(entry_views(dict@) =~= pre.push(
                            (dict@.last().0@, dict@.last().1 as nat),
                        ));
                    }
                    next = next + 1;
                }
            },
            Option::None => {
                proof {
                    assert(spec_record_key(data@[i as int]) is None);
                }
            },
        }
        i += 1;
    }
    proof {
        assert(data@.skip(i as int) =~= Seq::<TerminalRecord>::empty());
        assert(spec_assign(dict0, data@, next0 as nat) == entry_views(dict@));
    }
    // sort the full dictionary ascending by number and render
    let final_sorted = sort_entries(&dict);
    let tail = after_list_tail(&split_lines(existing));
    let ghost fsv = entry_views(final_sorted@);
    let ghost tailv = tail.deep_view();
    let mut out = String::new();
    out.append("[list]");
    let mut a: usize = 0;
    proof {
        assert(spec_render_lines(fsv.take(0)) =~= Seq::<Seq<char>>::empty());
        assert(out@ =~= "[list]"@ + spec_join_nl(spec_render_lines(fsv.take(0))));
    }
    while a < final_sorted.len()
        invariant
            a <= fsv.len(),
            fsv == entry_views(final_sorted@),
            fsv.len() == final_sorted@.len(),
            out@ == "[list]"@ + spec_join_nl(spec_render_lines(fsv.take(a as int))),
        decreases fsv.len() - a,
    {
        let keylen = final_sorted[a].0.as_str().unicode_len();
        let dot = scan_non_dot(final_sorted[a].0.as_str(), 0);
        proof {
            assert(fsv.take(a as int + 1).drop_last() =~= fsv.take(a as int));
            assert(fsv.take(a as int + 1).last() == fsv[a as int]);
        }
        if dot < keylen {
            let line = proc_line_string(final_sorted[a].0.as_str(), final_sorted[a].1);
            out.append("\n");
            out.append(line.as_str());
            proof {
                reveal_strlit("\n");
                let rl = spec_render_lines(fsv.take(a as int));
                let rl2 = spec_render_lines(fsv.take(a as int + 1));
                assert(rl2 =~= rl + seq![spec_proc_line(fsv[a as int])]);
                assert(rl2.drop_last() =~= rl);
                assert(out@ =~= "[list]"@ + spec_join_nl(rl2));
            }
        } else {
            proof {
                assert(spec_render_lines(fsv.take(a as int + 1)) =~= spec_render_lines(
                    fsv.take(a as int),
                ));
            }
        }
        a += 1;
    }
    proof {
        assert(fsv.take(a as int) =~= fsv);
        assert(spec_render_lines(fsv) + tailv.take(0) =~= spec_render_lines(fsv));
    }
    let mut b: usize = 0;
    while b < tail.len()
        invariant
            b <= tailv.len(),
            tailv == tail.deep_view(),
            tailv.len() == tail@.len(),
            forall|t: int| 0 <= t < tailv.len() ==> tailv[t] == #[trigger] tail@[t]@,
            fsv == entry_views(final_sorted@),
            out@ == "[list]"@ + spec_join_nl(spec_render_lines(fsv) + tailv.take(b as int)),
        decreases tailv.len() - b,
    {
        out.append("\n");
        out.append(tail[b].as_str());
        proof {
            reveal_strlit("\n");
            let body = spec_render_lines(fsv) + tailv.take(b as int + 1);
            assert(body.drop_last() =~= spec_render_lines(fsv) + tailv.take(b as int));
            assert(body.last() == tailv[b as int]);
            assert(out@ =~= "[list]"@ + spec_join_nl(body));
        }
        b += 1;
    }
    proof {
        assert(tailv.take(b as int) =~= tailv);
        assert(out@ =~= spec_list_file_content(existing@, data@));
    }
    out
}

/// A maximum over bounded numbers is bounded.
proof fn lemma_max_entry_le(entries: Seq<(Seq<char>, nat)>, b: nat)
    requires
        forall|i: int| 0 <= i < entries.len() ==> (#[trigger] entries[i]).1 <= b,
    ensures
        spec_max_entry(entries) <= b,
    decreases entries.len(),
{
    if entries.len() > 0 {
        assert(forall|i: int|
            0 <= i < entries.len() - 1 ==> (#[trigger] entries.drop_last()[i]) == entries[i]);
        lemma_max_entry_le(entries.drop_last(), b);
    }
}

/// The relative path of the list file for an airport and procedure code, or
/// `None` for an unknown code.
pub fn proc_filename(icao: &str, proc: &str) -> (r: Option<String>)
    ensures
        proc@ == "2"@ ==> r is Some && r.unwrap()@ == "Supplemental/SID/"@ + icao@ + ".sid"@,
        proc@ == "1"@ ==> r is Some && r.unwrap()@ == "Supplemental/STAR/"@ + icao@ + ".star"@,
        proc@ == "3"@ ==> r is Some && r.unwrap()@ == "Supplemental/STAR/"@ + icao@ + ".app"@,
        proc@ == "6"@ ==> r is Some && r.unwrap()@ == "Supplemental/SID/"@ + icao@ + ".sidtrs"@,
        proc@ == "A"@ ==> r is Some && r.unwrap()@ == "Supplemental/STAR/"@ + icao@ + ".apptrs"@,
        (proc@ != "2"@ && proc@ != "1"@ && proc@ != "3"@ && proc@ != "6"@ && proc@ != "A"@) ==> r
            is None,
{
    proof {
        reveal_strlit("1");
        reveal_strlit("2");
        reveal_strlit("3");
        reveal_strlit("6");
        reveal_strlit("A");
        assert("1"@[0] == '1' && "2"@[0] == '2' && "3"@[0] == '3' && "6"@[0] == '6' && "A"@[0]
            == 'A');
        assert("1"@ != "2"@ && "1"@ != "3"@ && "1"@ != "6"@ && "1"@ != "A"@);
        assert("2"@ != "3"@ && "2"@ != "6"@ && "2"@ != "A"@);
        assert("3"@ != "6"@ && "3"@ != "A"@ && "6"@ != "A"@);
    }
    let (dir, ext) = if str_eq(proc, "2") {
        ("Supplemental/SID/", ".sid")
    } else if str_eq(proc, "1") {
        ("Supplemental/STAR/", ".star")
    } else if str_eq(proc, "3") {
        ("Supplemental/STAR/", ".app")
    } else if str_eq(proc, "6") {
        ("Supplemental/SID/", ".sidtrs")
    } else if str_eq(proc, "A") {
        ("Supplemental/STAR/", ".apptrs")
    } else {
        return Option::None;
    };
    let mut s = dir.to_owned();
    s.append(icao);
    s.append(ext);
    proof {
        assert(s@ =~= dir@ + icao@ + ext@);
    }
    Option::Some(s)
}

/// Key stability: assigning new keys never touches the entries already in
/// the dictionary. A key listed as `Procedure.N=key` before the run is still
/// numbered `N` afterwards, at the same dictionary position.
pub proof fn lemma_assign_preserves_existing(
    d: Seq<(Seq<char>, nat)>,
    data: Seq<TerminalRecord>,
    next: nat,
)
    ensures
        spec_assign(d, data, next).len() >= d.len(),
        forall|i: int| 0 <= i < d.len() ==> spec_assign(d, data, next)[i] == d[i],
    decreases data.len(),
{
    if data.len() > 0 {
        match spec_record_key(data[0]) {
            Option::Some(k) => {
                if !dict_has_key(d, k) {
                    lemma_assign_preserves_existing(d.push((k, next)), data.drop_first(), next + 1);
                    assert(forall|i: int| 0 <= i < d.len() ==> d.push((k, next))[i] == d[i]);
                } else {
                    lemma_assign_preserves_existing(d, data.drop_first(), next);
                }
            },
            Option::None => {
                lemma_assign_preserves_existing(d, data.drop_first(), next);
            },
        }
    }
}

/// The shape of an assignment: the dictionary is extended only, and the
/// appended entries carry consecutive numbers counted from `next`, keys that
/// the dictionary did not hold.
pub proof fn lemma_assign_shape(d: Seq<(Seq<char>, nat)>, data: Seq<TerminalRecord>, next: nat)
    ensures
        forall|i: int| 0 <= i < d.len() ==> spec_assign(d, data, next)[i] == d[i],
        forall|i: int|
            d.len() <= i < spec_assign(d, data, next).len() ==> (#[trigger] spec_assign(
                d,
                data,
                next,
            )[i]).1 == next + i - d.len(),
    decreases data.len(),
{
    lemma_assign_preserves_existing(d, data, next);
    if data.len() > 0 {
        match spec_record_key(data[0]) {
            Option::Some(k) => {
                if !dict_has_key(d, k) {
                    let d2 = d.push((k, next));
                    lemma_assign_shape(d2, data.drop_first(), next + 1);
                    lemma_assign_preserves_existing(d2, data.drop_first(), next + 1);
                    let a = spec_assign(d, data, next);
                    assert(a == spec_assign(d2, data.drop_first(), next + 1));
                    assert forall|i: int| d.len() <= i < a.len() implies (#[trigger] a[i]).1
                        == next + i - d.len() by {
                        if i == d.len() {
                            assert(a[i] == d2[i]);
                            assert(d2[i].1 == next);
                        } else {
                            assert(a[i].1 == (next + 1) + i - d2.len());
                        }
                    }
                } else {
                    lemma_assign_shape(d, data.drop_first(), next);
                    assert(spec_assign(d, data, next) == spec_assign(
                        d,
                        data.drop_first(),
                        next,
                    ));
                }
            },
            Option::None => {
                lemma_assign_shape(d, data.drop_first(), next);
                assert(spec_assign(d, data, next) == spec_assign(d, data.drop_first(), next));
            },
        }
    }
}

/// The numbers of a sorted entry sequence ascend.
pub open spec fn entries_ascending(s: Seq<(Seq<char>, nat)>) -> bool {
    forall|i: int, j: int| 0 <= i < j < s.len() ==> (#[trigger] s[i]).1 <= (#[trigger] s[j]).1
}

/// The numbers of a sequence ascend strictly.
pub open spec fn entries_strictly_ascending(s: Seq<(Seq<char>, nat)>) -> bool {
    forall|i: int, j: int| 0 <= i < j < s.len() ==> (#[trigger] s[i]).1 < (#[trigger] s[j]).1
}

proof fn lemma_insert_entry_end(s: Seq<(Seq<char>, nat)>, e: (Seq<char>, nat))
    requires
        forall|i: int| 0 <= i < s.len() ==> (#[trigger] s[i]).1 <= e.1,
    ensures
        spec_insert_entry(s, e) == s.push(e),
{
    lemma_insert_entry_at(s, e, s.len() as int);
    assert(s.take(s.len() as int) + seq![e] + s.skip(s.len() as int) =~= s.push(e));
}

/// Everything in the inserted sequence is the new entry or an old one.
proof fn lemma_insert_entry_members(s: Seq<(Seq<char>, nat)>, e: (Seq<char>, nat))
    ensures
        forall|i: int|
            0 <= i < spec_insert_entry(s, e).len() ==> (#[trigger] spec_insert_entry(s, e)[i] == e
                || exists|j: int| 0 <= j < s.len() && s[j] == spec_insert_entry(s, e)[i]),
    decreases s.len(),
{
    if s.len() == 0 {
    } else if e.1 < s[0].1 {
        assert forall|i: int| 0 <= i < spec_insert_entry(s, e).len() implies (
        #[trigger] spec_insert_entry(s, e)[i] == e || exists|j: int|
            0 <= j < s.len() && s[j] == spec_insert_entry(s, e)[i]) by {
            if i > 0 {
                assert(s[i - 1] == spec_insert_entry(s, e)[i]);
            }
        }
    } else {
        lemma_insert_entry_members(s.drop_first(), e);
        assert forall|i: int| 0 <= i < spec_insert_entry(s, e).len() implies (
        #[trigger] spec_insert_entry(s, e)[i] == e || exists|j: int|
            0 <= j < s.len() && s[j] == spec_insert_entry(s, e)[i]) by {
            if i == 0 {
                assert(s[0] == spec_insert_entry(s, e)[0]);
            } else {
                let inner = spec_insert_entry(s.drop_first(), e);
                assert(inner[i - 1] == spec_insert_entry(s, e)[i]);
                if inner[i - 1] != e {
                    let j = choose|j: int|
                        0 <= j < s.drop_first().len() && s.drop_first()[j] == inner[i - 1];
                    assert(s[j + 1] == inner[i - 1]);
                }
            }
        }
    }
}

proof fn lemma_insert_entry_ascending(s: Seq<(Seq<char>, nat)>, e: (Seq<char>, nat))
    requires
        entries_ascending(s),
    ensures
        entries_ascending(spec_insert_entry(s, e)),
        spec_insert_entry(s, e).len() == s.len() + 1,
    decreases s.len(),
{
    if s.len() == 0 {
    } else if e.1 < s[0].1 {
    } else {
        assert(entries_ascending(s.drop_first())) by {
            assert(forall|i: int|
                0 <= i < s.len() - 1 ==> (#[trigger] s.drop_first()[i]) == s[i + 1]);
        }
        lemma_insert_entry_ascending(s.drop_first(), e);
        lemma_insert_entry_members(s.drop_first(), e);
        let r = seq![s[0]] + spec_insert_entry(s.drop_first(), e);
        assert forall|i: int, j: int| 0 <= i < j < r.len() implies (#[trigger] r[i]).1
            <= (#[trigger] r[j]).1 by {
            let inner = spec_insert_entry(s.drop_first(), e);
            if i == 0 {
                assert(r[j] == inner[j - 1]);
                if inner[j - 1] != e {
                    let k = choose|k: int|
                        0 <= k < s.drop_first().len() && s.drop_first()[k] == inner[j - 1];
                    assert(s.drop_first()[k] == s[k + 1]);
                    assert(s[0].1 <= s[k + 1].1);
                }
            } else {
                assert(r[i] == inner[i - 1]);
                assert(r[j] == inner[j - 1]);
            }
        }
    }
}

/// Sequence monotonicity of the sort: the entries of a sorted list never
/// descend in number.
pub proof fn lemma_sort_entries_ascending(s: Seq<(Seq<char>, nat)>)
    ensures
        entries_ascending(spec_sort_entries(s)),
        spec_sort_entries(s).len() == s.len(),
    decreases s.len(),
{
    if s.len() > 0 {
        lemma_sort_entries_ascending(s.drop_last());
        lemma_insert_entry_ascending(spec_sort_entries(s.drop_last()), s.last());
    }
}

/// Sorting an already ascending sequence leaves it unchanged.
pub proof fn lemma_sort_ascending_identity(s: Seq<(Seq<char>, nat)>)
    requires
        entries_ascending(s),
    ensures
        spec_sort_entries(s) == s,
    decreases s.len(),
{
    if s.len() > 0 {
        assert(entries_ascending(s.drop_last())) by {
            assert(forall|i: int|
                0 <= i < s.len() - 1 ==> (#[trigger] s.drop_last()[i]) == s[i]);
        }
        lemma_sort_ascending_identity(s.drop_last());
        lemma_insert_entry_end(s.drop_last(), s.last());
        assert(s.drop_last().push(s.last()) =~= s);
    }
}

/// Sequence monotonicity for a file that had no procedure lines: the
/// assigned entries carry the numbers 1, 2, 3, ... in order, sorting leaves
/// them in place, and no two entries share a number.
pub proof fn lemma_fresh_list_numbers(data: Seq<TerminalRecord>)
    ensures
        ({
            let sorted = spec_sort_entries(spec_assign(Seq::empty(), data, 1));
            &&& sorted == spec_assign(Seq::empty(), data, 1)
            &&& forall|i: int| 0 <= i < sorted.len() ==> (#[trigger] sorted[i]).1 == i + 1
            &&& entries_strictly_ascending(sorted)
        }),
{
    let assigned = spec_assign(Seq::<(Seq<char>, nat)>::empty(), data, 1);
    lemma_assign_shape(Seq::empty(), data, 1);
    assert(forall|i: int| 0 <= i < assigned.len() ==> (#[trigger] assigned[i]).1 == i + 1);
    assert(entries_ascending(assigned));
    lemma_sort_ascending_identity(assigned);
}


/// Round trip of one list line: rendering `Procedure.N=key` and parsing it
/// back recovers the key and its number exactly, for any whitespace-free key
/// whose first dot is interior.
pub proof fn lemma_proc_line_round_trip(key: Seq<char>, num: nat)
    requires
        num <= u32::MAX,
        non_space_run_end(key, 0) == key.len(),
        1 <= non_dot_run_end(key, 0),
        non_dot_run_end(key, 0) + 1 < key.len(),
    ensures
        spec_parse_proc_line(spec_proc_line((key, num))) == Option::Some((key, num)),
{
    let pre = "Procedure."@;
    let d = spec_digits(num);
    let l = spec_proc_line((key, num));
    let p = non_dot_run_end(key, 0);
    crate::numbers::lemma_spec_digits_shape(num);
    crate::numbers::lemma_digits_round_trip(num);
    crate::text::lemma_non_dot_run_end(key, 0);
    crate::text::lemma_non_space_run_end(key, 0);
    proof_strlits();
    let dl = d.len() as int;
    assert(l.len() == 10 + dl + 1 + key.len());
    assert forall|j: int| 0 <= j < 10 implies l[j] == pre[j] by {}
    assert(is_prefix(pre, l));
    assert forall|j: int| 10 <= j < 10 + dl implies char_is_digit(l[j]) by {
        assert(l[j] == d[j - 10]);
    }
    assert(l[10 + dl] == '=');
    crate::text::lemma_digit_run_end_is(l, 10, 10 + dl);
    let n_start = 10 + dl + 1;
    assert forall|j: int| n_start <= j < n_start + p implies l[j] != '.' by {
        assert(l[j] == key[j - n_start]);
    }
    assert(l[n_start + p] == key[p]);
    assert(key[p] == '.');
    crate::text::lemma_non_dot_run_end_is(l, n_start, n_start + p);
    let r_start = n_start + p + 1;
    assert forall|j: int| r_start <= j < l.len() implies !char_is_space(l[j]) by {
        assert(l[j] == key[j - n_start]);
    }
    crate::text::lemma_non_space_run_end_is(l, r_start, l.len() as int);
    assert(l.subrange(10, 10 + dl) =~= d);
    assert(digits_value(l.subrange(10, 10 + dl)) == num);
    assert(l.subrange(n_start, n_start + p) + seq!['.'] + l.subrange(r_start, l.len() as int)
        =~= key);
}

proof fn proof_strlits()
    ensures
        "Procedure."@.len() == 10,
        "="@.len() == 1,
        "="@[0] == '=',
        forall|j: int| 0 <= j < 10 ==> "Procedure."@[j] != '.' || j == 9,
{
    reveal_strlit("Procedure.");
    reveal_strlit("=");
}

proof fn lemma_insert_entry_contains(s: Seq<(Seq<char>, nat)>, e: (Seq<char>, nat))
    ensures
        spec_insert_entry(s, e).contains(e),
        forall|x: (Seq<char>, nat)| s.contains(x) ==> spec_insert_entry(s, e).contains(x),
    decreases s.len(),
{
    if s.len() == 0 {
        assert(spec_insert_entry(s, e)[0] == e);
    } else if e.1 < s[0].1 {
        assert(spec_insert_entry(s, e)[0] == e);
        assert forall|x: (Seq<char>, nat)| s.contains(x) implies spec_insert_entry(
            s,
            e,
        ).contains(x) by {
            let i = choose|i: int| 0 <= i < s.len() && #[trigger] s[i] == x;
            assert(spec_insert_entry(s, e)[i + 1] == x);
        }
    } else {
        lemma_insert_entry_contains(s.drop_first(), e);
        let inner = spec_insert_entry(s.drop_first(), e);
        let ie = choose|i: int| 0 <= i < inner.len() && #[trigger] inner[i] == e;
        assert(spec_insert_entry(s, e)[ie + 1] == e);
        assert forall|x: (Seq<char>, nat)| s.contains(x) implies spec_insert_entry(
            s,
            e,
        ).contains(x) by {
            let i = choose|i: int| 0 <= i < s.len() && #[trigger] s[i] == x;
            if i == 0 {
                assert(spec_insert_entry(s, e)[0] == x);
            } else {
                assert(s.drop_first()[i - 1] == x);
                assert(s.drop_first().contains(x));
                assert(inner.contains(x));
                let k = choose|k: int| 0 <= k < inner.len() && #[trigger] inner[k] == x;
                assert(spec_insert_entry(s, e)[k + 1] == x);
            }
        }
    }
}

/// Sorting loses no entry.
pub proof fn lemma_sort_entries_contains(s: Seq<(Seq<char>, nat)>)
    ensures
        forall|x: (Seq<char>, nat)| s.contains(x) ==> spec_sort_entries(s).contains(x),
    decreases s.len(),
{
    if s.len() > 0 {
        lemma_sort_entries_contains(s.drop_last());
        lemma_insert_entry_contains(spec_sort_entries(s.drop_last()), s.last());
        assert forall|x: (Seq<char>, nat)| s.contains(x) implies spec_sort_entries(s).contains(
            x,
        ) by {
            let i = choose|i: int| 0 <= i < s.len() && #[trigger] s[i] == x;
            if i < s.len() - 1 {
                assert(s.drop_last()[i] == x);
                assert(s.drop_last().contains(x));
                assert(spec_sort_entries(s.drop_last()).contains(x));
            } else {
                assert(x == s.last());
            }
        }
    }
}

/// Every dictionary entry with a dotted key has its line among the rendered
/// procedure lines.
proof fn lemma_render_lines_contain(d: Seq<(Seq<char>, nat)>)
    ensures
        forall|i: int|
            0 <= i < d.len() && non_dot_run_end((#[trigger] d[i]).0, 0) < d[i].0.len()
                ==> spec_render_lines(d).contains(spec_proc_line(d[i])),
    decreases d.len(),
{
    if d.len() > 0 {
        lemma_render_lines_contain(d.drop_last());
        assert forall|i: int|
            0 <= i < d.len() && non_dot_run_end((#[trigger] d[i]).0, 0) < d[i].0.len() implies
            spec_render_lines(d).contains(spec_proc_line(d[i])) by {
            let pre = spec_render_lines(d.drop_last());
            if i < d.len() - 1 {
                assert(d.drop_last()[i] == d[i]);
                assert(pre.contains(spec_proc_line(d[i])));
                let k = choose|k: int| 0 <= k < pre.len() && #[trigger] pre[k] == spec_proc_line(
                    d[i],
                );
                assert(spec_render_lines(d)[k] == spec_proc_line(d[i]));
            } else {
                assert(spec_render_lines(d)[pre.len() as int] == spec_proc_line(d.last()));
            }
        }
    }
}

/// A segment of text: `seg` occurs in `s` at offset `off`.
pub open spec fn seg_at(s: Seq<char>, seg: Seq<char>, off: int) -> bool {
    0 <= off && off + seg.len() <= s.len() && s.subrange(off, off + seg.len()) == seg
}

/// The text holds `line` as a whole line introduced by a newline.
pub open spec fn has_nl_segment(s: Seq<char>, line: Seq<char>) -> bool {
    exists|off: int| #[trigger] seg_at(s, seq!['\n'] + line, off)
}

proof fn lemma_join_nl_segments(lines: Seq<Seq<char>>)
    ensures
        forall|i: int| 0 <= i < lines.len() ==> has_nl_segment(spec_join_nl(lines), #[trigger] lines[i]),
    decreases lines.len(),
{
    if lines.len() > 0 {
        lemma_join_nl_segments(lines.drop_last());
        let pre = spec_join_nl(lines.drop_last());
        let whole = spec_join_nl(lines);
        assert forall|i: int| 0 <= i < lines.len() implies has_nl_segment(
            spec_join_nl(lines),
            #[trigger] lines[i],
        ) by {
            if i < lines.len() - 1 {
                assert(lines.drop_last()[i] == lines[i]);
                assert(has_nl_segment(pre, lines[i]));
                let off = choose|off: int| #[trigger] seg_at(pre, seq!['\n'] + lines[i], off);
                let seg = seq!['\n'] + lines[i];
                assert(seg_at(pre, seg, off));
                assert(off + seg.len() <= pre.len());
                assert(whole.subrange(off, off + seg.len()) =~= pre.subrange(
                    off,
                    off + seg.len(),
                ));
                assert(seg_at(whole, seg, off));
                assert(has_nl_segment(whole, lines[i]));
            } else {
                let seg = seq!['\n'] + lines[i];
                let off = pre.len() as int;
                assert(whole.subrange(off, off + seg.len()) =~= seg);
                assert(seg_at(whole, seg, off));
                assert(has_nl_segment(whole, lines[i]));
            }
        }
    }
}

/// Key stability at the file level: every entry of the assigned dictionary
/// whose key holds a dot - in particular every entry the existing file
/// contributed, which `spec_assign` never changes - appears verbatim in the
/// rewritten content as a `Procedure.N=key` line after a newline.
pub proof fn lemma_list_output_has_entry(
    c: Seq<char>,
    data: Seq<TerminalRecord>,
    e: (Seq<char>, nat),
)
    requires
        ({
            let entries = spec_entries(spec_lines(c));
            let dict = spec_dict_of(spec_sort_entries(entries));
            spec_assign(dict, data, spec_max_entry(entries) + 1).contains(e)
        }),
        non_dot_run_end(e.0, 0) < e.0.len(),
    ensures
        has_nl_segment(spec_list_file_content(c, data), spec_proc_line(e)),
{
    let entries = spec_entries(spec_lines(c));
    let dict = spec_dict_of(spec_sort_entries(entries));
    let assigned = spec_assign(dict, data, spec_max_entry(entries) + 1);
    let sorted = spec_sort_entries(assigned);
    lemma_sort_entries_contains(assigned);
    assert(sorted.contains(e));
    let i = choose|i: int| 0 <= i < sorted.len() && #[trigger] sorted[i] == e;
    lemma_render_lines_contain(sorted);
    let rl = spec_render_lines(sorted);
    assert(rl.contains(spec_proc_line(e)));
    let k = choose|k: int| 0 <= k < rl.len() && #[trigger] rl[k] == spec_proc_line(e);
    let body = rl + spec_non_proc(spec_after_list(spec_lines(c)));
    assert(body[k] == spec_proc_line(e));
    lemma_join_nl_segments(body);
    assert(has_nl_segment(spec_join_nl(body), spec_proc_line(e)));
    let off = choose|off: int|
        #[trigger] seg_at(spec_join_nl(body), seq!['\n'] + spec_proc_line(e), off);
    let seg = seq!['\n'] + spec_proc_line(e);
    let shifted = off + "[list]"@.len();
    assert(spec_list_file_content(c, data).subrange(shifted, shifted + seg.len()) =~= spec_join_nl(
        body,
    ).subrange(off, off + seg.len()));
    assert(seg_at(spec_list_file_content(c, data), seg, shifted));
    assert(has_nl_segment(spec_list_file_content(c, data), spec_proc_line(e)));
}

/// Sequence monotonicity at the file level: the dictionary whose entries the
/// rewritten content renders in order never descends in sequence number.
pub proof fn lemma_list_numbers_ascend(c: Seq<char>, data: Seq<TerminalRecord>)
    ensures
        ({
            let entries = spec_entries(spec_lines(c));
            let dict = spec_dict_of(spec_sort_entries(entries));
            entries_ascending(
                spec_sort_entries(spec_assign(dict, data, spec_max_entry(entries) + 1)),
            )
        }),
{
    let entries = spec_entries(spec_lines(c));
    let dict = spec_dict_of(spec_sort_entries(entries));
    lemma_sort_entries_ascending(spec_assign(dict, data, spec_max_entry(entries) + 1));
}

proof fn lemma_join_nl_front(lines: Seq<Seq<char>>)
    requires
        lines.len() > 0,
    ensures
        spec_join_nl(lines) == seq!['\n'] + lines[0] + spec_join_nl(lines.drop_first()),
    decreases lines.len(),
{
    if lines.len() == 1 {
        assert(lines.drop_last() =~= Seq::<Seq<char>>::empty());
        assert(lines.drop_first() =~= Seq::<Seq<char>>::empty());
        assert(spec_join_nl(lines) =~= seq!['\n'] + lines[0] + spec_join_nl(lines.drop_first()));
    } else {
        let dl = lines.drop_last();
        lemma_join_nl_front(dl);
        assert(lines.drop_first().drop_last() =~= dl.drop_first());
        assert(lines.drop_first().last() == lines.last());
        assert(spec_join_nl(lines.drop_first()) == spec_join_nl(dl.drop_first()) + seq!['\n']
            + lines.last());
        assert(spec_join_nl(lines) =~= seq!['\n'] + lines[0] + spec_join_nl(lines.drop_first()));
    }
}

/// A line fit for joining: no newline inside, and no trailing carriage
/// return to be mistaken for a line ending.
pub open spec fn joinable_line(l: Seq<char>) -> bool {
    (forall|j: int| 0 <= j < l.len() ==> l[j] != '\n') && (l.len() > 0 ==> l[l.len() - 1] != '\r')
}

/// Splitting inverts joining: the lines of a first line followed by
/// newline-joined body lines are exactly that first line and the body.
pub proof fn lemma_split_inverts_join(first: Seq<char>, body: Seq<Seq<char>>)
    requires
        joinable_line(first),
        body.len() == 0 ==> first.len() > 0,
        forall|i: int| 0 <= i < body.len() ==> joinable_line(#[trigger] body[i]),
        body.len() > 0 ==> body.last().len() > 0,
    ensures
        spec_lines(first + spec_join_nl(body)) == seq![first] + body,
    decreases body.len(),
{
    let s = first + spec_join_nl(body);
    if body.len() == 0 {
        assert(s =~= first);
        crate::text::lemma_line_end_bounds(s, 0);
        let e = crate::text::line_end(s, 0);
        assert(e == s.len()) by {
            if e < s.len() {
                assert(s[e] == '\n');
            }
        }
        assert(crate::text::strip_cr(s.subrange(0, e)) =~= first);
        assert(crate::text::spec_lines_from(s, e + 1) =~= Seq::<Seq<char>>::empty());
        assert(spec_lines(s) =~= seq![first] + body);
    } else {
        lemma_join_nl_front(body);
        let rest = body.drop_first();
        assert(s =~= first + seq!['\n'] + (body[0] + spec_join_nl(rest)));
        crate::text::lemma_line_end_bounds(s, 0);
        let e = crate::text::line_end(s, 0);
        assert(e == first.len()) by {
            if e < first.len() {
                assert(s[e] == first[e]);
                assert(s[e] == '\n');
            } else if e > first.len() {
                assert(s[first.len() as int] == '\n');
            }
        }
        assert(crate::text::strip_cr(s.subrange(0, e)) =~= first);
        crate::text::lemma_lines_from_shift(s, e + 1);
        assert(s.skip(e + 1) =~= body[0] + spec_join_nl(rest));
        assert(rest.len() == 0 ==> body[0].len() > 0) by {
            if rest.len() == 0 {
                assert(body[0] == body.last());
            }
        }
        assert(forall|i: int| 0 <= i < rest.len() ==> #[trigger] rest[i] == body[i + 1]);
        if rest.len() > 0 {
            assert(rest.last() == body.last());
        }
        lemma_split_inverts_join(body[0], rest);
        assert(spec_lines(s) =~= seq![first] + body);
    }
}

/// A key fit for the round trip: no whitespace, and a dot that is interior
/// on both sides.
pub open spec fn key_wf(k: Seq<char>) -> bool {
    non_space_run_end(k, 0) == k.len() && 1 <= crate::parsing::last_dot_before(k, k.len() - 1)
}

/// The procedure fingerprints of the dictionary entries, in order.
pub open spec fn entry_names(icao: Seq<char>, d: Seq<(Seq<char>, nat)>) -> Seq<Seq<char>> {
    d.map_values(|e: (Seq<char>, nat)| icao + seq!['.'] + e.0)
}

proof fn lemma_render_lines_front(d: Seq<(Seq<char>, nat)>)
    requires
        d.len() > 0,
    ensures
        spec_render_lines(d) == (if non_dot_run_end(d[0].0, 0) < d[0].0.len() {
            seq![spec_proc_line(d[0])]
        } else {
            Seq::<Seq<char>>::empty()
        }) + spec_render_lines(d.drop_first()),
    decreases d.len(),
{
    let head: Seq<Seq<char>> = if non_dot_run_end(d[0].0, 0) < d[0].0.len() {
        seq![spec_proc_line(d[0])]
    } else {
        Seq::<Seq<char>>::empty()
    };
    if d.len() == 1 {
        assert(d.drop_last() =~= Seq::<(Seq<char>, nat)>::empty());
        assert(d.drop_first() =~= Seq::<(Seq<char>, nat)>::empty());
        assert(spec_render_lines(d) =~= head + spec_render_lines(d.drop_first()));
    } else {
        let dl = d.drop_last();
        lemma_render_lines_front(dl);
        assert(d.drop_first().drop_last() =~= dl.drop_first());
        assert(d.drop_first().last() == d.last());
        assert(spec_render_lines(d) =~= head + spec_render_lines(d.drop_first()));
    }
}

/// Lines that do not begin with `Procedure.` add no procedure fingerprints.
proof fn lemma_procs_skip_tail(icao: Seq<char>, lines: Seq<Seq<char>>, acc: Seq<Seq<char>>)
    requires
        forall|i: int| 0 <= i < lines.len() ==> !is_prefix("Procedure."@, #[trigger] lines[i]),
    ensures
        crate::parsing::spec_procs_acc(icao, lines, true, acc) == acc,
    decreases lines.len(),
{
    if lines.len() > 0 {
        if is_prefix("["@, lines[0]) {
        } else {
            assert(crate::parsing::spec_parse_listed_line(lines[0]) is None);
            assert(forall|i: int|
                0 <= i < lines.drop_first().len() ==> #[trigger] lines.drop_first()[i] == lines[i
                    + 1]);
            lemma_procs_skip_tail(icao, lines.drop_first(), acc);
        }
    }
}

/// Reading the rendered procedure lines accumulates exactly their
/// fingerprints, and the walk then continues into the remaining lines.
proof fn lemma_procs_read_render(
    icao: Seq<char>,
    d: Seq<(Seq<char>, nat)>,
    rest: Seq<Seq<char>>,
    acc: Seq<Seq<char>>,
)
    requires
        forall|i: int| 0 <= i < d.len() ==> key_wf((#[trigger] d[i]).0),
    ensures
        crate::parsing::spec_procs_acc(icao, spec_render_lines(d) + rest, true, acc) == crate::parsing::spec_procs_acc(
            icao,
            rest,
            true,
            acc + entry_names(icao, d),
        ),
    decreases d.len(),
{
    proof_walk_strlits();
    if d.len() == 0 {
        assert(spec_render_lines(d) + rest =~= rest);
        assert(acc + entry_names(icao, d) =~= acc);
    } else {
        lemma_render_lines_front(d);
        let e = d[0];
        crate::parsing::lemma_last_dot_before(e.0, e.0.len() - 1);
        let p = crate::parsing::last_dot_before(e.0, e.0.len() - 1);
        crate::text::lemma_non_dot_run_end(e.0, 0);
        assert(e.0[p] == '.');
        assert(non_dot_run_end(e.0, 0) <= p) by {
            if non_dot_run_end(e.0, 0) > p {
                assert(e.0[p] != '.');
            }
        }
        let line = spec_proc_line(e);
        let lines = spec_render_lines(d) + rest;
        assert(lines =~= seq![line] + (spec_render_lines(d.drop_first()) + rest));
        assert(lines[0] == line);
        assert(line[0] == 'P');
        assert(!is_prefix("["@, line)) by {
            if is_prefix("["@, line) {
                assert(line[0] == '[');
            }
        }
        crate::parsing::lemma_listed_line_round_trip(e.0, e.1);
        assert(crate::parsing::spec_parse_listed_line(line) == Option::Some(e.0));
        assert(lines.drop_first() =~= spec_render_lines(d.drop_first()) + rest);
        assert(forall|i: int|
            0 <= i < d.drop_first().len() ==> #[trigger] d.drop_first()[i] == d[i + 1]);
        lemma_procs_read_render(icao, d.drop_first(), rest, acc.push(icao + seq!['.'] + e.0));
        assert(acc.push(icao + seq!['.'] + e.0) + entry_names(icao, d.drop_first()) =~= acc
            + entry_names(icao, d));
    }
}

proof fn proof_walk_strlits()
    ensures
        "Procedure."@.len() == 10,
        "Procedure."@[0] == 'P',
        "["@.len() == 1,
        "["@[0] == '[',
        "[list]"@.len() == 6,
        "[list]"@[0] == '[',
{
    reveal_strlit("Procedure.");
    reveal_strlit("[");
    reveal_strlit("[list]");
}

/// Round-trip read of a written list file: splitting the rewritten content
/// into lines and walking its `[list]` window recovers exactly the
/// procedure fingerprints `icao.key` of the assigned dictionary, in order.
/// The keys must be fit for the grammar and the preserved tail lines fit for
/// joining.
pub proof fn lemma_list_file_round_trip(icao: Seq<char>, c: Seq<char>, data: Seq<TerminalRecord>)
    requires
        ({
            let entries = spec_entries(spec_lines(c));
            let dict = spec_dict_of(spec_sort_entries(entries));
            let sorted = spec_sort_entries(
                spec_assign(dict, data, spec_max_entry(entries) + 1),
            );
            forall|i: int| 0 <= i < sorted.len() ==> key_wf((#[trigger] sorted[i]).0)
        }),
        ({
            let tail = spec_non_proc(spec_after_list(spec_lines(c)));
            (forall|i: int| 0 <= i < tail.len() ==> joinable_line(#[trigger] tail[i]))
                && (tail.len() > 0 ==> tail.last().len() > 0)
        }),
    ensures
        ({
            let entries = spec_entries(spec_lines(c));
            let dict = spec_dict_of(spec_sort_entries(entries));
            let sorted = spec_sort_entries(
                spec_assign(dict, data, spec_max_entry(entries) + 1),
            );
            crate::parsing::spec_procs_acc(
                icao,
                spec_lines(spec_list_file_content(c, data)),
                false,
                Seq::empty(),
            ) == entry_names(icao, sorted)
        }),
{
    proof_walk_strlits();
    let entries = spec_entries(spec_lines(c));
    let dict = spec_dict_of(spec_sort_entries(entries));
    let sorted = spec_sort_entries(spec_assign(dict, data, spec_max_entry(entries) + 1));
    let rl = spec_render_lines(sorted);
    let tail = spec_non_proc(spec_after_list(spec_lines(c)));
    let body = rl + tail;
    // every rendered line is fit for joining
    assert(rl.len() == sorted.len()) by {
        lemma_render_all(sorted);
    }
    assert forall|i: int| 0 <= i < body.len() implies joinable_line(#[trigger] body[i]) by {
        if i < rl.len() {
            lemma_render_all(sorted);
            assert(rl[i] == spec_proc_line(sorted[i]));
            lemma_proc_line_joinable(sorted[i]);
        } else {
            assert(body[i] == tail[i - rl.len()]);
        }
    }
    assert(body.len() > 0 ==> body.last().len() > 0) by {
        if body.len() > 0 {
            if tail.len() > 0 {
                assert(body.last() == tail.last());
            } else {
                lemma_render_all(sorted);
                assert(body.last() == spec_proc_line(sorted.last()));
                lemma_proc_line_joinable(sorted.last());
            }
        }
    }
    assert(joinable_line("[list]"@)) by {
        reveal_strlit("[list]");
        assert forall|j: int| 0 <= j < "[list]"@.len() implies "[list]"@[j] != '\n' by {}
        assert("[list]"@[5] == ']');
    }
    lemma_split_inverts_join("[list]"@, body);
    let all = spec_lines(spec_list_file_content(c, data));
    assert(all == seq!["[list]"@] + body);
    // the first line opens the window
    assert(all[0] == "[list]"@);
    assert(is_prefix("[list]"@, all[0]));
    assert(all.drop_first() =~= rl + tail);
    // the rendered lines are read back, the tail adds nothing
    assert forall|i: int| 0 <= i < sorted.len() implies key_wf((#[trigger] sorted[i]).0) by {}
    lemma_procs_read_render(icao, sorted, tail, Seq::empty());
    assert forall|i: int| 0 <= i < tail.len() implies !is_prefix(
        "Procedure."@,
        #[trigger] tail[i],
    ) by {
        lemma_non_proc_members(spec_after_list(spec_lines(c)));
    }
    lemma_procs_skip_tail(icao, tail, Seq::empty() + entry_names(icao, sorted));
    assert(Seq::empty() + entry_names(icao, sorted) =~= entry_names(icao, sorted));
    assert(crate::parsing::spec_procs_acc(icao, all, false, Seq::empty()) == crate::parsing::spec_procs_acc(
        icao,
        all.drop_first(),
        true,
        Seq::empty(),
    ));
}

/// Under well-formed keys every entry renders, one line each, in order.
proof fn lemma_render_all(d: Seq<(Seq<char>, nat)>)
    requires
        forall|i: int| 0 <= i < d.len() ==> key_wf((#[trigger] d[i]).0),
    ensures
        spec_render_lines(d).len() == d.len(),
        forall|i: int|
            0 <= i < d.len() ==> #[trigger] spec_render_lines(d)[i] == spec_proc_line(d[i]),
    decreases d.len(),
{
    if d.len() > 0 {
        let dl = d.drop_last();
        assert(forall|i: int| 0 <= i < dl.len() ==> #[trigger] dl[i] == d[i]);
        lemma_render_all(dl);
        let e = d.last();
        crate::parsing::lemma_last_dot_before(e.0, e.0.len() - 1);
        let p = crate::parsing::last_dot_before(e.0, e.0.len() - 1);
        crate::text::lemma_non_dot_run_end(e.0, 0);
        assert(e.0[p] == '.');
        assert(non_dot_run_end(e.0, 0) <= p) by {
            if non_dot_run_end(e.0, 0) > p {
                assert(e.0[p] != '.');
            }
        }
    }
}

/// A rendered procedure line holds no newline and ends with a non-space
/// character.
proof fn lemma_proc_line_joinable(e: (Seq<char>, nat))
    requires
        key_wf(e.0),
    ensures
        joinable_line(spec_proc_line(e)),
        spec_proc_line(e).len() > 0,
{
    let l = spec_proc_line(e);
    let pre = "Procedure."@;
    let d = spec_digits(e.1);
    crate::numbers::lemma_spec_digits_shape(e.1);
    crate::text::lemma_non_space_run_end(e.0, 0);
    crate::parsing::lemma_last_dot_before(e.0, e.0.len() - 1);
    proof_writer_strlits();
    assert forall|j: int| 0 <= j < l.len() implies l[j] != '\n' by {
        if j < 10 {
            assert(l[j] == pre[j]);
        } else if j < 10 + d.len() {
            assert(l[j] == d[j - 10]);
            assert(char_is_digit(l[j]));
        } else if j == 10 + d.len() {
            assert(l[j] == '=');
        } else {
            assert(l[j] == e.0[j - 11 - d.len()]);
            assert(!char_is_space(l[j]));
        }
    }
    assert(l[l.len() - 1] == e.0[e.0.len() - 1]);
    assert(!char_is_space(l[l.len() - 1]));
}

proof fn proof_writer_strlits()
    ensures
        "Procedure."@.len() == 10,
        forall|j: int| 0 <= j < 10 ==> "Procedure."@[j] != '\n',
        "="@.len() == 1,
        "="@[0] == '=',
{
    reveal_strlit("Procedure.");
    reveal_strlit("=");
}

/// No line of the filtered tail begins with `Procedure.`.
proof fn lemma_non_proc_members(lines: Seq<Seq<char>>)
    ensures
        forall|i: int|
            0 <= i < spec_non_proc(lines).len() ==> !is_prefix(
                "Procedure."@,
                #[trigger] spec_non_proc(lines)[i],
            ),
    decreases lines.len(),
{
    if lines.len() > 0 {
        lemma_non_proc_members(lines.drop_first());
        if !is_prefix("Procedure."@, lines[0]) {
            assert forall|i: int| 0 <= i < spec_non_proc(lines).len() implies !is_prefix(
                "Procedure."@,
                #[trigger] spec_non_proc(lines)[i],
            ) by {
                if i > 0 {
                    assert(spec_non_proc(lines)[i] == spec_non_proc(lines.drop_first())[i - 1]);
                }
            }
        }
    }
}

/// Every entry of the sorted sequence is an entry of the input.
proof fn lemma_sort_members_rev(s: Seq<(Seq<char>, nat)>)
    ensures
        forall|i: int|
            0 <= i < spec_sort_entries(s).len() ==> s.contains(#[trigger] spec_sort_entries(s)[i]),
    decreases s.len(),
{
    if s.len() > 0 {
        lemma_sort_members_rev(s.drop_last());
        lemma_insert_entry_members(spec_sort_entries(s.drop_last()), s.last());
        let inner = spec_sort_entries(s.drop_last());
        assert forall|i: int| 0 <= i < spec_sort_entries(s).len() implies s.contains(
            #[trigger] spec_sort_entries(s)[i],
        ) by {
            let x = spec_sort_entries(s)[i];
            if x == s.last() {
                assert(s[s.len() - 1] == x);
            } else {
                let j = choose|j: int| 0 <= j < inner.len() && #[trigger] inner[j] == x;
                assert(inner.contains(x));
                assert(s.drop_last().contains(x));
                let k = choose|k: int|
                    0 <= k < s.drop_last().len() && #[trigger] s.drop_last()[k] == x;
                assert(s[k] == x);
            }
        }
    }
}

/// Every number in the entries is at most the maximum.
proof fn lemma_max_entry_bound(entries: Seq<(Seq<char>, nat)>)
    ensures
        forall|i: int|
            0 <= i < entries.len() ==> (#[trigger] entries[i]).1 <= spec_max_entry(entries),
    decreases entries.len(),
{
    if entries.len() > 0 {
        lemma_max_entry_bound(entries.drop_last());
        assert forall|i: int| 0 <= i < entries.len() implies (#[trigger] entries[i]).1
            <= spec_max_entry(entries) by {
            if i < entries.len() - 1 {
                assert(entries.drop_last()[i] == entries[i]);
                assert(entries.drop_last()[i].1 <= spec_max_entry(entries.drop_last()));
            } else {
                assert(entries[i] == entries.last());
            }
        }
    }
}

/// The keys of the entry sequence are pairwise distinct.
pub open spec fn keys_distinct(s: Seq<(Seq<char>, nat)>) -> bool {
    forall|i: int, j: int| 0 <= i < j < s.len() ==> (#[trigger] s[i]).0 != (#[trigger] s[j]).0
}

/// The numbers of the entry sequence are pairwise distinct.
pub open spec fn nums_distinct(s: Seq<(Seq<char>, nat)>) -> bool {
    forall|i: int, j: int| 0 <= i < j < s.len() ==> (#[trigger] s[i]).1 != (#[trigger] s[j]).1
}

proof fn lemma_dict_insert_props(d: Seq<(Seq<char>, nat)>, e: (Seq<char>, nat))
    requires
        keys_distinct(d),
    ensures
        keys_distinct(spec_dict_insert(d, e)),
        forall|i: int|
            0 <= i < spec_dict_insert(d, e).len() ==> (#[trigger] spec_dict_insert(d, e)[i] == e
                || d.contains(spec_dict_insert(d, e)[i])),
    decreases d.len(),
{
    let r = spec_dict_insert(d, e);
    if d.len() == 0 {
    } else if d[0].0 == e.0 {
        assert forall|i: int| 0 <= i < r.len() implies (#[trigger] r[i] == e || d.contains(
            r[i],
        )) by {
            if i > 0 {
                assert(r[i] == d[i]);
            }
        }
        assert forall|i: int, j: int| 0 <= i < j < r.len() implies (#[trigger] r[i]).0 != (
        #[trigger] r[j]).0 by {
            if i > 0 {
                assert(r[i] == d[i] && r[j] == d[j]);
            } else {
                assert(r[j] == d[j]);
                assert(d[0].0 != d[j].0);
            }
        }
    } else {
        assert(keys_distinct(d.drop_first())) by {
            assert(forall|i: int|
                0 <= i < d.drop_first().len() ==> #[trigger] d.drop_first()[i] == d[i + 1]);
        }
        lemma_dict_insert_props(d.drop_first(), e);
        let inner = spec_dict_insert(d.drop_first(), e);
        // the inserted tail holds only e and old entries, and e's key differs
        // from the head's
        assert forall|i: int| 0 <= i < r.len() implies (#[trigger] r[i] == e || d.contains(
            r[i],
        )) by {
            if i > 0 {
                assert(r[i] == inner[i - 1]);
                if inner[i - 1] != e {
                    assert(d.drop_first().contains(inner[i - 1]));
                    let k = choose|k: int|
                        0 <= k < d.drop_first().len() && #[trigger] d.drop_first()[k] == inner[i
                            - 1];
                    assert(d[k + 1] == inner[i - 1]);
                }
            } else {
                assert(r[0] == d[0]);
                assert(d.contains(d[0]));
            }
        }
        assert forall|i: int, j: int| 0 <= i < j < r.len() implies (#[trigger] r[i]).0 != (
        #[trigger] r[j]).0 by {
            if i > 0 {
                assert(r[i] == inner[i - 1] && r[j] == inner[j - 1]);
            } else {
                assert(r[j] == inner[j - 1]);
                if inner[j - 1] == e {
                } else {
                    assert(d.drop_first().contains(inner[j - 1]));
                    let k = choose|k: int|
                        0 <= k < d.drop_first().len() && #[trigger] d.drop_first()[k] == inner[j
                            - 1];
                    assert(d[0].0 != d[k + 1].0);
                }
            }
        }
    }
}

/// The dictionary built from entries has pairwise-distinct keys, and each
/// of its entries is one of the input entries.
pub proof fn lemma_dict_of_props(es: Seq<(Seq<char>, nat)>)
    ensures
        keys_distinct(spec_dict_of(es)),
        forall|i: int|
            0 <= i < spec_dict_of(es).len() ==> es.contains(#[trigger] spec_dict_of(es)[i]),
    decreases es.len(),
{
    if es.len() > 0 {
        lemma_dict_of_props(es.drop_last());
        lemma_dict_insert_props(spec_dict_of(es.drop_last()), es.last());
        let inner = spec_dict_of(es.drop_last());
        assert forall|i: int| 0 <= i < spec_dict_of(es).len() implies es.contains(
            #[trigger] spec_dict_of(es)[i],
        ) by {
            let x = spec_dict_of(es)[i];
            if x == es.last() {
                assert(es[es.len() - 1] == x);
            } else {
                assert(inner.contains(x));
                let k = choose|k: int| 0 <= k < inner.len() && #[trigger] inner[k] == x;
                assert(es.drop_last().contains(x));
                let m = choose|m: int|
                    0 <= m < es.drop_last().len() && #[trigger] es.drop_last()[m] == x;
                assert(es[m] == x);
            }
        }
    }
}

proof fn lemma_insert_preserves_nums_distinct(s: Seq<(Seq<char>, nat)>, e: (Seq<char>, nat))
    requires
        nums_distinct(s),
        forall|i: int| 0 <= i < s.len() ==> (#[trigger] s[i]).1 != e.1,
    ensures
        nums_distinct(spec_insert_entry(s, e)),
    decreases s.len(),
{
    let r = spec_insert_entry(s, e);
    if s.len() == 0 {
    } else if e.1 < s[0].1 {
        assert forall|i: int, j: int| 0 <= i < j < r.len() implies (#[trigger] r[i]).1 != (
        #[trigger] r[j]).1 by {
            if i == 0 {
                assert(r[j] == s[j - 1]);
            } else {
                assert(r[i] == s[i - 1] && r[j] == s[j - 1]);
            }
        }
    } else {
        assert(nums_distinct(s.drop_first()) && (forall|i: int|
            0 <= i < s.drop_first().len() ==> (#[trigger] s.drop_first()[i]).1 != e.1)) by {
            assert(forall|i: int|
                0 <= i < s.drop_first().len() ==> #[trigger] s.drop_first()[i] == s[i + 1]);
        }
        lemma_insert_preserves_nums_distinct(s.drop_first(), e);
        lemma_insert_entry_members(s.drop_first(), e);
        let inner = spec_insert_entry(s.drop_first(), e);
        assert forall|i: int, j: int| 0 <= i < j < r.len() implies (#[trigger] r[i]).1 != (
        #[trigger] r[j]).1 by {
            if i > 0 {
                assert(r[i] == inner[i - 1] && r[j] == inner[j - 1]);
            } else {
                assert(r[0] == s[0]);
                assert(r[j] == inner[j - 1]);
                if inner[j - 1] == e {
                } else {
                    let k = choose|k: int|
                        0 <= k < s.drop_first().len() && #[trigger] s.drop_first()[k] == inner[j
                            - 1];
                    assert(s[k + 1] == inner[j - 1]);
                    assert(s[0].1 != s[k + 1].1);
                }
            }
        }
    }
}

/// Sorting keeps the numbers pairwise distinct.
pub proof fn lemma_sort_preserves_nums_distinct(s: Seq<(Seq<char>, nat)>)
    requires
        nums_distinct(s),
    ensures
        nums_distinct(spec_sort_entries(s)),
    decreases s.len(),
{
    if s.len() > 0 {
        assert(nums_distinct(s.drop_last())) by {
            assert(forall|i: int|
                0 <= i < s.drop_last().len() ==> #[trigger] s.drop_last()[i] == s[i]);
        }
        lemma_sort_preserves_nums_distinct(s.drop_last());
        lemma_sort_members_rev(s.drop_last());
        let inner = spec_sort_entries(s.drop_last());
        assert forall|i: int| 0 <= i < inner.len() implies (#[trigger] inner[i]).1
            != s.last().1 by {
            assert(s.drop_last().contains(inner[i]));
            let k = choose|k: int|
                0 <= k < s.drop_last().len() && #[trigger] s.drop_last()[k] == inner[i];
            assert(s[k] == inner[i]);
            assert(s[k].1 != s[s.len() - 1].1);
        }
        lemma_insert_preserves_nums_distinct(inner, s.last());
    }
}

/// Sequence monotonicity in full: when the existing file's entries carry
/// pairwise-distinct numbers, the sorted assigned dictionary - whose entries
/// the rewritten content renders top to bottom - is strictly ascending in
/// number, and no two of its entries share a number or a key.
pub proof fn lemma_list_numbers_strict(c: Seq<char>, data: Seq<TerminalRecord>)
    requires
        nums_distinct(spec_entries(spec_lines(c))),
    ensures
        ({
            let entries = spec_entries(spec_lines(c));
            let dict = spec_dict_of(spec_sort_entries(entries));
            let sorted = spec_sort_entries(
                spec_assign(dict, data, spec_max_entry(entries) + 1),
            );
            entries_strictly_ascending(sorted) && nums_distinct(sorted)
        }),
{
    let entries = spec_entries(spec_lines(c));
    let sorted0 = spec_sort_entries(entries);
    let dict = spec_dict_of(sorted0);
    let next = spec_max_entry(entries) + 1;
    let assigned = spec_assign(dict, data, next);
    let sorted = spec_sort_entries(assigned);
    lemma_sort_members_rev(entries);
    lemma_dict_of_props(sorted0);
    lemma_max_entry_bound(entries);
    // dictionary entries come from the file's entries, so their numbers are
    // distinct and bounded by the maximum
    assert forall|i: int| 0 <= i < dict.len() implies entries.contains(#[trigger] dict[i]) by {
        assert(sorted0.contains(dict[i]));
        let k = choose|k: int| 0 <= k < sorted0.len() && #[trigger] sorted0[k] == dict[i];
        assert(entries.contains(sorted0[k]));
    }
    assert forall|i: int| 0 <= i < dict.len() implies (#[trigger] dict[i]).1 < next by {
        let m = choose|m: int| 0 <= m < entries.len() && #[trigger] entries[m] == dict[i];
        assert(entries[m].1 <= spec_max_entry(entries));
    }
    assert(nums_distinct(dict)) by {
        assert forall|i: int, j: int| 0 <= i < j < dict.len() implies (#[trigger] dict[i]).1 != (
        #[trigger] dict[j]).1 by {
            assert(dict[i].0 != dict[j].0);
            let mi = choose|m: int| 0 <= m < entries.len() && #[trigger] entries[m] == dict[i];
            let mj = choose|m: int| 0 <= m < entries.len() && #[trigger] entries[m] == dict[j];
            assert(mi != mj);
            if mi < mj {
                assert(entries[mi].1 != entries[mj].1);
            } else {
                assert(entries[mj].1 != entries[mi].1);
            }
        }
    }
    // the assignment appends fresh consecutive numbers above every existing
    // one
    lemma_assign_shape(dict, data, next);
    assert(nums_distinct(assigned)) by {
        assert forall|i: int, j: int| 0 <= i < j < assigned.len() implies (
        #[trigger] assigned[i]).1 != (#[trigger] assigned[j]).1 by {
            if j < dict.len() {
                assert(assigned[i] == dict[i] && assigned[j] == dict[j]);
            } else if i < dict.len() {
                assert(assigned[i] == dict[i]);
                assert(assigned[j].1 == next + j - dict.len());
                assert(dict[i].1 < next);
            } else {
                assert(assigned[i].1 == next + i - dict.len());
                assert(assigned[j].1 == next + j - dict.len());
            }
        }
    }
    lemma_sort_preserves_nums_distinct(assigned);
    lemma_sort_entries_ascending(assigned);
    assert(entries_strictly_ascending(sorted)) by {
        assert forall|i: int, j: int| 0 <= i < j < sorted.len() implies (#[trigger] sorted[i]).1
            < (#[trigger] sorted[j]).1 by {
            assert(sorted[i].1 <= sorted[j].1);
            assert(sorted[i].1 != sorted[j].1);
        }
    }
}

} // verus!
