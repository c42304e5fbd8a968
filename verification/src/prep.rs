//! Preparation of the terminal-record roster that feeds the procedure-list
//! writer: synthetic transition records, the digit-free ICAO filter, and the
//! expansion of records without a runway over the runways their merged
//! records name.

use vstd::prelude::*;
use crate::merge::{views_of, MergedView};
use crate::parsing::spec_dedup_push;
use crate::records::{MergedDataRow, TerminalRecord};
use crate::text::{char_is_digit, is_digit, seq_char_lt, str_eq, str_lt, vec_contains_str};

verus! {

/// The mathematical image of a terminal record.
pub ghost struct TermView {
    pub proc: Seq<char>,
    pub icao: Seq<char>,
    pub name: Seq<char>,
    pub rwy: Option<Seq<char>>,
}

pub open spec fn term_view(t: TerminalRecord) -> TermView {
    TermView {
        proc: t.proc@,
        icao: t.icao@,
        name: t.name@,
        rwy: crate::merge::opt_str_view(t.rwy),
    }
}

pub open spec fn term_views(s: Seq<TerminalRecord>) -> Seq<TermView> {
    s.map_values(|t: TerminalRecord| term_view(t))
}

/// The synthetic transition records: one per merged record whose procedure
/// type is "6" or "A", named after its transition.
pub open spec fn spec_transitions(vs: Seq<MergedView>) -> Seq<TermView>
    decreases vs.len(),
{
    if vs.len() == 0 {
        Seq::empty()
    } else {
        spec_transitions(vs.drop_last()) + (if vs.last().type_field == Option::Some("6"@)
            || vs.last().type_field == Option::Some("A"@) {
            seq![
                TermView {
                    proc: vs.last().type_field.unwrap(),
                    icao: vs.last().icao,
                    name: match vs.last().transition {
                        Option::Some(t) => t,
                        Option::None => Seq::<char>::empty(),
                    },
                    rwy: vs.last().rwy,
                },
            ]
        } else {
            Seq::empty()
        })
    }
}

/// Builds the synthetic transition records from the merged stream.
pub fn generate_transitions(data: &Vec<MergedDataRow>) -> (r: Vec<TerminalRecord>)
    ensures
        term_views(r@) == spec_transitions(views_of(data@)),
{
    let ghost vs = views_of(data@);
    let mut out: Vec<TerminalRecord> = Vec::new();
    let mut i: usize = 0;
    proof {
        assert(term_views(out@) =~= spec_transitions(vs.take(0)));
    }
    while i < data.len()
        invariant
            i <= data@.len(),
            vs == views_of(data@),
            vs.len() == data@.len(),
            term_views(out@) == spec_transitions(vs.take(i as int)),
        decreases data@.len() - i,
    {
        proof {
            assert(vs[i as int] == crate::merge::view_of(data@[i as int]));
            assert(vs.take(i as int + 1).drop_last() =~= vs.take(i as int));
            assert(vs.take(i as int + 1).last() == vs[i as int]);
        }
        let matches_code = match &data[i].type_field {
            Option::Some(t) => str_eq(t.as_str(), "6") || str_eq(t.as_str(), "A"),
            Option::None => false,
        };
        if matches_code {
            let rec = TerminalRecord {
                proc: match &data[i].type_field {
                    Option::Some(t) => t.clone(),
                    Option::None => String::new(),
                },
                icao: data[i].icao.clone(),
                name: match &data[i].transition {
                    Option::Some(t) => t.clone(),
                    Option::None => String::new(),
                },
                rwy: crate::records::clone_opt_string(&data[i].rwy),
            };
            let ghost pre = term_views(out@);
            out.push(rec);
            proof {
                assert(term_views(out@) =~= pre.push(term_view(out@.last())));
                assert(spec_transitions(vs.take(i as int + 1)) =~= pre.push(
                    term_view(out@.last()),
                ));
            }
        } else {
            proof {
                assert(spec_transitions(vs.take(i as int + 1)) =~= spec_transitions(
                    vs.take(i as int),
                ));
            }
        }
        i += 1;
    }
    proof {
        assert(vs.take(i as int) =~= vs);
    }
    out
}

/// No character of the string is a digit.
pub open spec fn no_digit(s: Seq<char>) -> bool {
    forall|i: int| 0 <= i < s.len() ==> !char_is_digit(s[i])
}

fn icao_has_digit(s: &str) -> (r: bool)
    ensures
        r == !no_digit(s@),
{
    let len = s.unicode_len();
    let mut i: usize = 0;
    while i < len
        invariant
            i <= len,
            len == s@.len(),
            forall|j: int| 0 <= j < i ==> !char_is_digit(s@[j]),
        decreases len - i,
    {
        if is_digit(s.get_char(i)) {
            return true;
        }
        i += 1;
    }
    false
}

/// The terminal records whose ICAO holds no digit, from `j` on.
pub open spec fn digit_free(ts: Seq<TermView>, j: int) -> Seq<TermView>
    decreases ts.len() - j,
{
    if j < 0 || j >= ts.len() {
        Seq::empty()
    } else {
        (if no_digit(ts[j].icao) {
            seq![ts[j]]
        } else {
            Seq::empty()
        }) + digit_free(ts, j + 1)
    }
}

/// Inserts a runway into the sorted duplicate-free list.
pub open spec fn sorted_insert(s: Seq<Seq<char>>, x: Seq<char>) -> Seq<Seq<char>>
    decreases s.len(),
{
    if s.len() == 0 {
        seq![x]
    } else if x == s[0] {
        s
    } else if seq_char_lt(x, s[0]) {
        seq![x] + s
    } else {
        seq![s[0]] + sorted_insert(s.drop_first(), x)
    }
}

/// The sorted list of distinct runways that merged records of the group
/// (icao, name) carry, folding positions from `j` on into `acc`.
pub open spec fn uniq_rwys_acc(
    vs: Seq<MergedView>,
    icao: Seq<char>,
    name: Seq<char>,
    j: int,
    acc: Seq<Seq<char>>,
) -> Seq<Seq<char>>
    decreases vs.len() - j,
{
    if j < 0 || j >= vs.len() {
        acc
    } else {
        uniq_rwys_acc(
            vs,
            icao,
            name,
            j + 1,
            if vs[j].icao == icao && vs[j].terminal == name {
                match vs[j].rwy {
                    Option::Some(r) => sorted_insert(acc, r),
                    Option::None => acc,
                }
            } else {
                acc
            },
        )
    }
}

/// Exactly one of: `a` before `b`, equal, or `b` before `a`.
proof fn lemma_seq_char_trichotomy(a: Seq<char>, b: Seq<char>)
    ensures
        seq_char_lt(a, b) || a == b || seq_char_lt(b, a),
        seq_char_lt(a, b) ==> a != b && !seq_char_lt(b, a),
        a == b ==> !seq_char_lt(a, b),
    decreases a.len(),
{
    if a.len() > 0 && b.len() > 0 && a[0] == b[0] {
        lemma_seq_char_trichotomy(a.drop_first(), b.drop_first());
        if a.drop_first() == b.drop_first() {
            assert(a =~= b) by {
                assert forall|i: int| 0 <= i < a.len() implies a[i] == b[i] by {
                    if i > 0 {
                        assert(a.drop_first()[i - 1] == b.drop_first()[i - 1]);
                    }
                }
            }
        }
        if a == b {
            assert(a.drop_first() =~= b.drop_first());
        }
    } else if a.len() == 0 && b.len() == 0 {
        assert(a =~= b);
    }
}

proof fn lemma_sorted_insert_found(s: Seq<Seq<char>>, x: Seq<char>, pos: int)
    requires
        0 <= pos < s.len(),
        forall|j: int| 0 <= j < pos ==> seq_char_lt(#[trigger] s[j], x),
        s[pos] == x,
    ensures
        sorted_insert(s, x) == s,
    decreases pos,
{
    lemma_seq_char_trichotomy(x, s[0]);
    if pos == 0 {
    } else {
        lemma_sorted_insert_found(s.drop_first(), x, pos - 1);
        assert(seq![s[0]] + s.drop_first() =~= s);
    }
}

proof fn lemma_sorted_insert_at(s: Seq<Seq<char>>, x: Seq<char>, pos: int)
    requires
        0 <= pos <= s.len(),
        forall|j: int| 0 <= j < pos ==> seq_char_lt(#[trigger] s[j], x),
        pos < s.len() ==> !seq_char_lt(s[pos], x) && s[pos] != x,
    ensures
        sorted_insert(s, x) == s.take(pos) + seq![x] + s.skip(pos),
    decreases pos,
{
    if pos == 0 {
        if s.len() == 0 {
            assert(sorted_insert(s, x) =~= s.take(0) + seq![x] + s.skip(0));
        } else {
            lemma_seq_char_trichotomy(x, s[0]);
            assert(sorted_insert(s, x) =~= s.take(0) + seq![x] + s.skip(0));
        }
    } else {
        lemma_seq_char_trichotomy(x, s[0]);
        lemma_sorted_insert_at(s.drop_first(), x, pos - 1);
        assert(s.drop_first().take(pos - 1) =~= s.take(pos).drop_first());
        assert(s.drop_first().skip(pos - 1) =~= s.skip(pos));
        assert(seq![s[0]] + sorted_insert(s.drop_first(), x) =~= s.take(pos) + seq![x] + s.skip(
            pos,
        ));
    }
}

/// Inserts a runway into the sorted duplicate-free vector.
fn sorted_insert_exec(v: &mut Vec<String>, x: String)
    ensures
        final(v).deep_view() == sorted_insert(old(v).deep_view(), x@),
{
    let mut pos: usize = 0;
    while pos < v.len() && str_lt(v[pos].as_str(), x.as_str())
        invariant
            pos <= v@.len(),
            forall|j: int| 0 <= j < pos ==> seq_char_lt(#[trigger] v.deep_view()[j], x@),
            v == old(v),
        decreases v@.len() - pos,
    {
        proof {
            assert(v.deep_view()[pos as int] == v@[pos as int]@);
        }
        pos += 1;
    }
    if pos < v.len() && str_eq(v[pos].as_str(), x.as_str()) {
        proof {
            assert(v.deep_view()[pos as int] == v@[pos as int]@);
            lemma_sorted_insert_found(v.deep_view(), x@, pos as int);
        }
        return ;
    }
    proof {
        if pos < v@.len() {
            assert(v.deep_view()[pos as int] == v@[pos as int]@);
        }
        lemma_sorted_insert_at(v.deep_view(), x@, pos as int);
    }
    let ghost pre = v.deep_view();
    v.insert(pos, x);
    proof {
        assert(v.deep_view() =~= pre.take(pos as int) + seq![v@[pos as int]@] + pre.skip(
            pos as int,
        ));
    }
}

/// The expansion of the records without a runway: each takes, in turn, every
/// distinct runway its merged group names; one whose group names none stays
/// as it is.
pub open spec fn spec_expanded(ts: Seq<TermView>, vs: Seq<MergedView>, j: int) -> Seq<TermView>
    decreases ts.len() - j,
{
    if j < 0 || j >= ts.len() {
        Seq::empty()
    } else {
        (if ts[j].rwy is None {
            let u = uniq_rwys_acc(vs, ts[j].icao, ts[j].name, 0, Seq::empty());
            if u.len() == 0 {
                seq![ts[j]]
            } else {
                u.map_values(|rw: Seq<char>| TermView { rwy: Option::Some(rw), ..ts[j] })
            }
        } else {
            Seq::empty()
        }) + spec_expanded(ts, vs, j + 1)
    }
}

/// The records that already carry a runway, from `j` on.
pub open spec fn spec_with_rwy(ts: Seq<TermView>, j: int) -> Seq<TermView>
    decreases ts.len() - j,
{
    if j < 0 || j >= ts.len() {
        Seq::empty()
    } else {
        (if ts[j].rwy is Some {
            seq![ts[j]]
        } else {
            Seq::empty()
        }) + spec_with_rwy(ts, j + 1)
    }
}

/// The full roster fed to the list writer: the digit-free database records
/// extended with the synthetic transitions, the runway-carrying records
/// first, then the expanded runway-less ones.
pub open spec fn spec_prepared(db: Seq<TermView>, vs: Seq<MergedView>) -> Seq<TermView> {
    let combined = digit_free(db, 0) + spec_transitions(vs);
    spec_with_rwy(combined, 0) + spec_expanded(combined, vs, 0)
}

/// Computes the sorted distinct runways of one (icao, name) group.
fn unique_rwys(merged: &Vec<MergedDataRow>, icao: &str, name: &str) -> (r: Vec<String>)
    ensures
        r.deep_view() == uniq_rwys_acc(views_of(merged@), icao@, name@, 0, Seq::empty()),
{
    let ghost vs = views_of(merged@);
    let mut out: Vec<String> = Vec::new();
    let mut j: usize = 0;
    proof {
        assert(out.deep_view() =~= Seq::<Seq<char>>::empty());
    }
    while j < merged.len()
        invariant
            j <= merged@.len(),
            vs == views_of(merged@),
            vs.len() == merged@.len(),
            uniq_rwys_acc(vs, icao@, name@, 0, Seq::empty()) == uniq_rwys_acc(
                vs,
                icao@,
                name@,
                j as int,
                out.deep_view(),
            ),
        decreases merged@.len() - j,
    {
        proof {
            assert(vs[j as int] == crate::merge::view_of(merged@[j as int]));
        }
        if str_eq(merged[j].icao.as_str(), icao) && str_eq(merged[j].terminal.as_str(), name) {
            match &merged[j].rwy {
                Option::Some(rw) => {
                    sorted_insert_exec(&mut out, rw.clone());
                },
                Option::None => {},
            }
        }
        j += 1;
    }
    out
}

/// Builds the roster: filters database records to digit-free ICAOs, appends
/// the synthetic transition records, and expands records without a runway
/// over the distinct runways of their merged group.
pub fn prepare_terminal_records(
    db_terminals: Vec<TerminalRecord>,
    merged: &Vec<MergedDataRow>,
) -> (r: Vec<TerminalRecord>)
    ensures
        term_views(r@) == spec_prepared(term_views(db_terminals@), views_of(merged@)),
{
    let ghost dbv = term_views(db_terminals@);
    let ghost vs = views_of(merged@);
    // digit-free database records, then the synthetic transitions
    let mut combined: Vec<TerminalRecord> = Vec::new();
    let mut i: usize = 0;
    proof {
        assert(term_views(combined@) =~= Seq::<TermView>::empty());
    }
    while i < db_terminals.len()
        invariant
            i <= db_terminals@.len(),
            dbv == term_views(db_terminals@),
            dbv.len() == db_terminals@.len(),
            digit_free(dbv, 0) == term_views(combined@) + digit_free(dbv, i as int),
        decreases db_terminals@.len() - i,
    {
        proof {
            assert(dbv[i as int] == term_view(db_terminals@[i as int]));
        }
        if !icao_has_digit(db_terminals[i].icao.as_str()) {
            let ghost pre = term_views(combined@);
            combined.push(db_terminals[i].duplicate());
            proof {
                assert(term_views(combined@) =~= pre.push(dbv[i as int]));
            }
        }
        i += 1;
    }
    proof {
        assert(digit_free(dbv, i as int) =~= Seq::<TermView>::empty());
    }
    let mut transitions = generate_transitions(merged);
    let ghost keptv = term_views(combined@);
    let ghost transv = term_views(transitions@);
    let mut n: usize = 0;
    while n < transitions.len()
        invariant
            n <= transitions@.len(),
            transv == term_views(transitions@),
            transv.len() == transitions@.len(),
            term_views(combined@) == keptv + transv.take(n as int),
        decreases transitions@.len() - n,
    {
        let ghost pre = term_views(combined@);
        let rec = transitions[n].duplicate();
        combined.push(rec);
        proof {
            assert(transv[n as int] == term_view(transitions@[n as int]));
            assert(term_views(combined@) =~= pre.push(transv[n as int]));
            assert(keptv + transv.take(n as int + 1) =~= pre.push(transv[n as int]));
        }
        n += 1;
    }
    proof {
        assert(transv.take(n as int) =~= transv);
        assert(term_views(combined@) =~= digit_free(dbv, 0) + spec_transitions(vs));
    }
    let ghost cv = term_views(combined@);
    // records with a runway keep their place; the rest expand
    let mut with_rwy: Vec<TerminalRecord> = Vec::new();
    let mut expanded: Vec<TerminalRecord> = Vec::new();
    let mut k: usize = 0;
    proof {
        assert(term_views(with_rwy@) =~= Seq::<TermView>::empty());
        assert(term_views(expanded@) =~= Seq::<TermView>::empty());
    }
    while k < combined.len()
        invariant
            k <= combined@.len(),
            cv == term_views(combined@),
            cv.len() == combined@.len(),
            vs == views_of(merged@),
            spec_with_rwy(cv, 0) == term_views(with_rwy@) + spec_with_rwy(cv, k as int),
            spec_expanded(cv, vs, 0) == term_views(expanded@) + spec_expanded(cv, vs, k as int),
        decreases combined@.len() - k,
    {
        proof {
            assert(cv[k as int] == term_view(combined@[k as int]));
        }
        let has_rwy = match &combined[k].rwy {
            Option::Some(_) => true,
            Option::None => false,
        };
        if has_rwy {
            let ghost pre = term_views(with_rwy@);
            with_rwy.push(combined[k].duplicate());
            proof {
                assert(term_views(with_rwy@) =~= pre.push(cv[k as int]));
                assert(spec_with_rwy(cv, k as int) =~= seq![cv[k as int]] + spec_with_rwy(
                    cv,
                    k as int + 1,
                ));
                assert(spec_expanded(cv, vs, k as int) =~= spec_expanded(cv, vs, k as int + 1));
            }
        } else {
            let u = unique_rwys(merged, combined[k].icao.as_str(), combined[k].name.as_str());
            let ghost uv = u.deep_view();
            if u.len() == 0 {
                let ghost pre = term_views(expanded@);
                expanded.push(combined[k].duplicate());
                proof {
                    assert(term_views(expanded@) =~= pre.push(cv[k as int]));
                    assert(spec_expanded(cv, vs, k as int) =~= seq![cv[k as int]] + spec_expanded(
                        cv,
                        vs,
                        k as int + 1,
                    ));
                    assert(spec_with_rwy(cv, k as int) =~= spec_with_rwy(cv, k as int + 1));
                }
            } else {
                let ghost base = term_views(expanded@);
                let ghost clones = uv.map_values(
                    |rw: Seq<char>| TermView { rwy: Option::Some(rw), ..cv[k as int] },
                );
                let mut m: usize = 0;
                while m < u.len()
                    invariant
                        m <= u@.len(),
                        k < combined@.len(),
                        uv == u.deep_view(),
                        uv.len() == u@.len(),
                        cv == term_views(combined@),
                        cv.len() == combined@.len(),
                        clones == uv.map_values(
                            |rw: Seq<char>| TermView { rwy: Option::Some(rw), ..cv[k as int] },
                        ),
                        term_views(expanded@) == base + clones.take(m as int),
                    decreases u@.len() - m,
                {
                    let mut rec = combined[k].duplicate();
                    rec.rwy = Option::Some(u[m].clone());
                    let ghost pre = term_views(expanded@);
                    expanded.push(rec);
                    proof {
                        assert(uv[m as int] == u@[m as int]@);
                        assert(term_views(expanded@) =~= pre.push(term_view(expanded@.last())));
                        assert(clones[m as int] == term_view(expanded@.last()));
                        assert(base + clones.take(m as int + 1) =~= pre.push(clones[m as int]));
                    }
                    m += 1;
                }
                proof {
                    assert(clones.take(m as int) =~= clones);
                    assert(spec_expanded(cv, vs, k as int) =~= clones + spec_expanded(
                        cv,
                        vs,
                        k as int + 1,
                    ));
                    assert(spec_with_rwy(cv, k as int) =~= spec_with_rwy(cv, k as int + 1));
                }
            }
        }
        k += 1;
    }
    proof {
        assert(spec_with_rwy(cv, k as int) =~= Seq::<TermView>::empty());
        assert(spec_expanded(cv, vs, k as int) =~= Seq::<TermView>::empty());
    }
    let mut out = with_rwy;
    let ghost outv = term_views(out@);
    let mut n: usize = 0;
    while n < expanded.len()
        invariant
            n <= expanded@.len(),
            term_views(out@) == outv + term_views(expanded@).take(n as int),
            term_views(expanded@).len() == expanded@.len(),
        decreases expanded@.len() - n,
    {
        let ghost pre = term_views(out@);
        let rec = expanded[n].duplicate();
        out.push(rec);
        proof {
            assert(term_views(expanded@)[n as int] == term_view(expanded@[n as int]));
            assert(term_views(out@) =~= pre.push(term_views(expanded@)[n as int]));
            assert(outv + term_views(expanded@).take(n as int + 1) =~= pre.push(
                term_views(expanded@)[n as int],
            ));
        }
        n += 1;
    }
    proof {
        assert(term_views(expanded@).take(n as int) =~= term_views(expanded@));
    }
    out
}

/// The distinct ICAOs of the roster, first occurrences in order.
pub open spec fn uniq_icaos_acc(ts: Seq<TermView>, j: int, acc: Seq<Seq<char>>) -> Seq<Seq<char>>
    decreases ts.len() - j,
{
    if j < 0 || j >= ts.len() {
        acc
    } else {
        uniq_icaos_acc(ts, j + 1, spec_dedup_push(acc, ts[j].icao))
    }
}

/// The distinct airport ICAOs of the roster, in first-occurrence order.
pub fn unique_icaos(terminals: &Vec<TerminalRecord>) -> (r: Vec<String>)
    ensures
        r.deep_view() == uniq_icaos_acc(term_views(terminals@), 0, Seq::empty()),
{
    let ghost ts = term_views(terminals@);
    let mut out: Vec<String> = Vec::new();
    let mut i: usize = 0;
    proof {
        assert(out.deep_view() =~= Seq::<Seq<char>>::empty());
    }
    while i < terminals.len()
        invariant
            i <= terminals@.len(),
            ts == term_views(terminals@),
            ts.len() == terminals@.len(),
            uniq_icaos_acc(ts, 0, Seq::empty()) == uniq_icaos_acc(ts, i as int, out.deep_view()),
        decreases terminals@.len() - i,
    {
        proof {
            assert(ts[i as int] == term_view(terminals@[i as int]));
        }
        if !vec_contains_str(&out, terminals[i].icao.as_str()) {
            let ghost pre = out.deep_view();
            out.push(terminals[i].icao.clone());
            proof {
                assert(out.deep_view() =~= pre.push(ts[i as int].icao));
                assert(spec_dedup_push(pre, ts[i as int].icao) == out.deep_view());
            }
        }
        i += 1;
    }
    out
}

/// The roster records of one (icao, proc) pair, from `j` on.
pub open spec fn spec_filtered(ts: Seq<TermView>, icao: Seq<char>, proc: Seq<char>, j: int) -> Seq<
    TermView,
>
    decreases ts.len() - j,
{
    if j < 0 || j >= ts.len() {
        Seq::empty()
    } else {
        (if ts[j].icao == icao && ts[j].proc == proc {
            seq![ts[j]]
        } else {
            Seq::empty()
        }) + spec_filtered(ts, icao, proc, j + 1)
    }
}

/// The roster records of one airport and procedure code, in order.
pub fn filter_records(terminals: &Vec<TerminalRecord>, icao: &str, proc: &str) -> (r: Vec<
    TerminalRecord,
>)
    ensures
        term_views(r@) == spec_filtered(term_views(terminals@), icao@, proc@, 0),
{
    let ghost ts = term_views(terminals@);
    let mut out: Vec<TerminalRecord> = Vec::new();
    let mut i: usize = 0;
    proof {
        assert(term_views(out@) =~= Seq::<TermView>::empty());
    }
    while i < terminals.len()
        invariant
            i <= terminals@.len(),
            ts == term_views(terminals@),
            ts.len() == terminals@.len(),
            spec_filtered(ts, icao@, proc@, 0) == term_views(out@) + spec_filtered(
                ts,
                icao@,
                proc@,
                i as int,
            ),
        decreases terminals@.len() - i,
    {
        proof {
            assert(ts[i as int] == term_view(terminals@[i as int]));
        }
        if str_eq(terminals[i].icao.as_str(), icao) && str_eq(terminals[i].proc.as_str(), proc) {
            let ghost pre = term_views(out@);
            out.push(terminals[i].duplicate());
            proof {
                assert(term_views(out@) =~= pre.push(ts[i as int]));
                assert(spec_filtered(ts, icao@, proc@, i as int) =~= seq![ts[i as int]]
                    + spec_filtered(ts, icao@, proc@, i as int + 1));
            }
        } else {
            proof {
                assert(spec_filtered(ts, icao@, proc@, i as int) =~= spec_filtered(
                    ts,
                    icao@,
                    proc@,
                    i as int + 1,
                ));
            }
        }
        i += 1;
    }
    proof {
        assert(spec_filtered(ts, icao@, proc@, i as int) =~= Seq::<TermView>::empty());
    }
    out
}

} // verus!
