//! The leg emitter: walking the merged record stream for one file, keeping
//! only records whose procedure fingerprint is listed and whose detail
//! fingerprint is not yet present, numbering blocks per (transition, via),
//! and rendering the detail blocks.

use vstd::prelude::*;
use crate::listing::spec_zfill;
use crate::listing::zfill;
use crate::merge::opt_str_view;
use crate::numbers::{i64_to_string, spec_digits, spec_int_str, u64_to_string};
use crate::parsing::{parse_files, spec_details_acc, spec_parse_extension, spec_procs_acc, spec_stem};
use crate::records::{MergedDataRow, Row};
use crate::text::{
    is_blank, scan_non_dot, seq_is_blank, spec_lines, spec_trim, str_eq, trim_str,
    vec_contains_str,
};

verus! {

/// The views of the extra key/value columns.
pub open spec fn kv_views(extras: Seq<(String, String)>) -> Seq<(Seq<char>, Seq<char>)> {
    Seq::new(extras.len(), |i: int| (extras[i].0@, extras[i].1@))
}

/// The `key=value` lines of a block, one per extra whose value is not blank,
/// each ended by a newline.
pub open spec fn spec_kv_lines(extras: Seq<(Seq<char>, Seq<char>)>) -> Seq<char>
    decreases extras.len(),
{
    if extras.len() == 0 {
        Seq::<char>::empty()
    } else {
        spec_kv_lines(extras.drop_last()) + (if !seq_is_blank(extras.last().1) {
            extras.last().0 + seq!['='] + extras.last().1 + seq!['\n']
        } else {
            Seq::<char>::empty()
        })
    }
}

/// The header of a detail block.
pub open spec fn spec_header(t: Seq<char>, v: Seq<char>, n: nat) -> Seq<char> {
    seq!['['] + t + seq!['.'] + v + seq!['.'] + spec_digits(n) + seq![']']
}

/// A full rendered detail block: its header, then its `key=value` lines,
/// trimmed of surrounding whitespace.
pub open spec fn spec_block(
    t: Seq<char>,
    v: Seq<char>,
    n: nat,
    extras: Seq<(Seq<char>, Seq<char>)>,
) -> Seq<char> {
    spec_trim(spec_header(t, v, n) + seq!['\n'] + spec_kv_lines(extras))
}

/// The (transition, via) pair of a record: for transition procedure types
/// "6" and "A" the record's transition and terminal; otherwise the terminal
/// and the zero-padded runway.
pub open spec fn spec_row_tv(row: Row) -> (Seq<char>, Seq<char>) {
    if row.type_field@ == "6"@ || row.type_field@ == "A"@ {
        (row.transition@, row.terminal@)
    } else {
        (row.terminal@, spec_zfill(row.rwy@, 2))
    }
}

/// The blocks emitted for one file: records of the file's airport whose
/// procedure fingerprint is listed and whose detail fingerprint is absent,
/// numbered from 0 per (transition, via) and counted up while the pair
/// repeats.
pub open spec fn legs_acc(
    icao: Seq<char>,
    procs: Seq<Seq<char>>,
    details: Seq<Seq<char>>,
    rows: Seq<Row>,
    cur: Option<(Seq<char>, Seq<char>)>,
    seqno: nat,
    acc: Seq<Seq<char>>,
) -> Seq<Seq<char>>
    decreases rows.len(),
{
    if rows.len() == 0 {
        acc
    } else {
        let row = rows[0];
        if row.icao@ == icao {
            let (t, v) = spec_row_tv(row);
            let procedure = icao + seq!['.'] + t + seq!['.'] + v;
            let name = t + seq!['.'] + v;
            if procs.contains(procedure) && !details.contains(name) {
                let n: nat = if cur == Option::Some((t, v)) {
                    seqno + 1
                } else {
                    0
                };
                legs_acc(
                    icao,
                    procs,
                    details,
                    rows.drop_first(),
                    Option::Some((t, v)),
                    n,
                    acc.push(spec_block(t, v, n, kv_views(row.extras@))),
                )
            } else {
                legs_acc(icao, procs, details, rows.drop_first(), cur, seqno, acc)
            }
        } else {
            legs_acc(icao, procs, details, rows.drop_first(), cur, seqno, acc)
        }
    }
}

/// The headers (transition, via, seqno) of the emitted blocks, in order.
pub open spec fn legs_headers_acc(
    icao: Seq<char>,
    procs: Seq<Seq<char>>,
    details: Seq<Seq<char>>,
    rows: Seq<Row>,
    cur: Option<(Seq<char>, Seq<char>)>,
    seqno: nat,
    acc: Seq<(Seq<char>, Seq<char>, nat)>,
) -> Seq<(Seq<char>, Seq<char>, nat)>
    decreases rows.len(),
{
    if rows.len() == 0 {
        acc
    } else {
        let row = rows[0];
        if row.icao@ == icao {
            let (t, v) = spec_row_tv(row);
            let procedure = icao + seq!['.'] + t + seq!['.'] + v;
            let name = t + seq!['.'] + v;
            if procs.contains(procedure) && !details.contains(name) {
                let n: nat = if cur == Option::Some((t, v)) {
                    seqno + 1
                } else {
                    0
                };
                legs_headers_acc(
                    icao,
                    procs,
                    details,
                    rows.drop_first(),
                    Option::Some((t, v)),
                    n,
                    acc.push((t, v, n)),
                )
            } else {
                legs_headers_acc(icao, procs, details, rows.drop_first(), cur, seqno, acc)
            }
        } else {
            legs_headers_acc(icao, procs, details, rows.drop_first(), cur, seqno, acc)
        }
    }
}

/// Every emitted block's procedure fingerprint `icao.transition.via` is
/// listed in the file's procedure set at the moment of emission: a detail
/// block is only written for a listed procedure.
pub proof fn lemma_legs_listed(
    icao: Seq<char>,
    procs: Seq<Seq<char>>,
    details: Seq<Seq<char>>,
    rows: Seq<Row>,
    cur: Option<(Seq<char>, Seq<char>)>,
    seqno: nat,
    acc: Seq<(Seq<char>, Seq<char>, nat)>,
)
    requires
        forall|i: int|
            0 <= i < acc.len() ==> procs.contains(
                icao + seq!['.'] + (#[trigger] acc[i]).0 + seq!['.'] + acc[i].1,
            ),
    ensures
        forall|i: int|
            0 <= i < legs_headers_acc(icao, procs, details, rows, cur, seqno, acc).len()
                ==> procs.contains(
                icao + seq!['.'] + (#[trigger] legs_headers_acc(
                    icao,
                    procs,
                    details,
                    rows,
                    cur,
                    seqno,
                    acc,
                )[i]).0 + seq!['.'] + legs_headers_acc(icao, procs, details, rows, cur, seqno, acc)[i].1,
            ),
    decreases rows.len(),
{
    if rows.len() > 0 {
        let row = rows[0];
        if row.icao@ == icao {
            let (t, v) = spec_row_tv(row);
            let procedure = icao + seq!['.'] + t + seq!['.'] + v;
            let name = t + seq!['.'] + v;
            if procs.contains(procedure) && !details.contains(name) {
                let n: nat = if cur == Option::Some((t, v)) {
                    seqno + 1
                } else {
                    0
                };
                let acc2 = acc.push((t, v, n));
                assert forall|i: int| 0 <= i < acc2.len() implies procs.contains(
                    icao + seq!['.'] + (#[trigger] acc2[i]).0 + seq!['.'] + acc2[i].1,
                ) by {
                    if i < acc.len() {
                        assert(acc2[i] == acc[i]);
                    } else {
                        assert(acc2[i] == (t, v, n));
                    }
                }
                lemma_legs_listed(
                    icao,
                    procs,
                    details,
                    rows.drop_first(),
                    Option::Some((t, v)),
                    n,
                    acc2,
                );
                assert(legs_headers_acc(icao, procs, details, rows, cur, seqno, acc)
                    == legs_headers_acc(
                    icao,
                    procs,
                    details,
                    rows.drop_first(),
                    Option::Some((t, v)),
                    n,
                    acc2,
                ));
            } else {
                lemma_legs_listed(icao, procs, details, rows.drop_first(), cur, seqno, acc);
                assert(legs_headers_acc(icao, procs, details, rows, cur, seqno, acc)
                    == legs_headers_acc(icao, procs, details, rows.drop_first(), cur, seqno, acc));
            }
        } else {
            lemma_legs_listed(icao, procs, details, rows.drop_first(), cur, seqno, acc);
            assert(legs_headers_acc(icao, procs, details, rows, cur, seqno, acc)
                == legs_headers_acc(icao, procs, details, rows.drop_first(), cur, seqno, acc));
        }
    }
}

/// The view of the running (transition, via) state.
pub open spec fn cur_view(cur: Option<(String, String)>) -> Option<(Seq<char>, Seq<char>)> {
    match cur {
        Option::Some((t, v)) => Option::Some((t@, v@)),
        Option::None => Option::None,
    }
}

/// Renders one detail block.
fn render_block(t: &str, v: &str, seqno: u64, extras: &Vec<(String, String)>) -> (r: String)
    ensures
        r@ == spec_block(t@, v@, seqno as nat, kv_views(extras@)),
{
    let mut b = String::new();
    b.append("[");
    b.append(t);
    b.append(".");
    b.append(v);
    b.append(".");
    b.append(u64_to_string(seqno).as_str());
    b.append("]");
    b.append("\n");
    proof {
        reveal_strlit("[");
        reveal_strlit(".");
        reveal_strlit("]");
        reveal_strlit("\n");
        assert(b@ =~= spec_header(t@, v@, seqno as nat) + seq!['\n']);
        assert(kv_views(extras@).take(0) =~= Seq::<(Seq<char>, Seq<char>)>::empty());
        assert(b@ =~= spec_header(t@, v@, seqno as nat) + seq!['\n'] + spec_kv_lines(
            kv_views(extras@).take(0),
        ));
    }
    let mut k: usize = 0;
    while k < extras.len()
        invariant
            k <= extras@.len(),
            b@ == spec_header(t@, v@, seqno as nat) + seq!['\n'] + spec_kv_lines(
                kv_views(extras@).take(k as int),
            ),
        decreases extras@.len() - k,
    {
        proof {
            assert(kv_views(extras@).take(k as int + 1).drop_last() =~= kv_views(extras@).take(
                k as int,
            ));
            assert(kv_views(extras@).take(k as int + 1).last() == (
                extras@[k as int].0@,
                extras@[k as int].1@,
            ));
        }
        if !is_blank(extras[k].1.as_str()) {
            b.append(extras[k].0.as_str());
            b.append("=");
            b.append(extras[k].1.as_str());
            b.append("\n");
            proof {
                reveal_strlit("=");
                reveal_strlit("\n");
                assert(b@ =~= spec_header(t@, v@, seqno as nat) + seq!['\n'] + spec_kv_lines(
                    kv_views(extras@).take(k as int + 1),
                ));
            }
        } else {
            proof {
                assert(spec_kv_lines(kv_views(extras@).take(k as int + 1)) =~= spec_kv_lines(
                    kv_views(extras@).take(k as int),
                ));
            }
        }
        k += 1;
    }
    proof {
        assert(kv_views(extras@).take(k as int) =~= kv_views(extras@));
    }
    trim_str(b.as_str())
}

/// Generates the new detail blocks for one airport's file from the merged
/// record stream, the listed procedure fingerprints, and the detail
/// fingerprints already present.
pub fn legs_generate(
    icao: &str,
    procedures: &Vec<String>,
    details: &Vec<String>,
    data: &Vec<Row>,
) -> (r: Vec<String>)
    ensures
        r.deep_view() == legs_acc(
            icao@,
            procedures.deep_view(),
            details.deep_view(),
            data@,
            Option::None,
            0,
            Seq::empty(),
        ),
{
    let ghost procs_v = procedures.deep_view();
    let ghost dets_v = details.deep_view();
    let mut results: Vec<String> = Vec::new();
    let mut cur: Option<(String, String)> = Option::None;
    let mut seqno: usize = 0;
    let mut i: usize = 0;
    proof {
        assert(data@.skip(0) =~= data@);
        assert(results.deep_view() =~= Seq::<Seq<char>>::empty());
    }
    while i < data.len()
        invariant
            i <= data@.len(),
            seqno <= i,
            procs_v == procedures.deep_view(),
            dets_v == details.deep_view(),
            legs_acc(icao@, procs_v, dets_v, data@, Option::None, 0, Seq::empty()) == legs_acc(
                icao@,
                procs_v,
                dets_v,
                data@.skip(i as int),
                cur_view(cur),
                seqno as nat,
                results.deep_view(),
            ),
        decreases data@.len() - i,
    {
        proof {
            assert(data@.skip(i as int)[0] == data@[i as int]);
            assert(data@.skip(i as int).drop_first() =~= data@.skip(i as int + 1));
        }
        let row = &data[i];
        if str_eq(row.icao.as_str(), icao) {
            proof {
                reveal_strlit("6");
                reveal_strlit("A");
            }
            let (t, v) = if str_eq(row.type_field.as_str(), "6") || str_eq(
                row.type_field.as_str(),
                "A",
            ) {
                (row.transition.clone(), row.terminal.clone())
            } else {
                (row.terminal.clone(), zfill(row.rwy.as_str(), 2))
            };
            proof {
                assert((t@, v@) == spec_row_tv(data@[i as int]));
            }
            let mut procedure = icao.to_owned();
            procedure.append(".");
            procedure.append(t.as_str());
            procedure.append(".");
            procedure.append(v.as_str());
            let mut name = t.clone();
            name.append(".");
            name.append(v.as_str());
            proof {
                reveal_strlit(".");
                assert(procedure@ =~= icao@ + seq!['.'] + t@ + seq!['.'] + v@);
                assert(name@ =~= t@ + seq!['.'] + v@);
            }
            if vec_contains_str(procedures, procedure.as_str()) && !vec_contains_str(
                details,
                name.as_str(),
            ) {
                let same = match &cur {
                    Option::Some((ct, cv)) => str_eq(ct.as_str(), t.as_str()) && str_eq(
                        cv.as_str(),
                        v.as_str(),
                    ),
                    Option::None => false,
                };
                proof {
                    assert(same == (cur_view(cur) == Option::Some((t@, v@))));
                }
                let n: usize = if same {
                    seqno + 1
                } else {
                    0
                };
                let block = render_block(t.as_str(), v.as_str(), n as u64, &row.extras);
                let ghost pre = results.deep_view();
                results.push(block);
                proof {
                    assert(results.deep_view() =~= pre.push(
                        spec_block(t@, v@, n as nat, kv_views(data@[i as int].extras@)),
                    ));
                }
                cur = Option::Some((t, v));
                seqno = n;
            }
        }
        i += 1;
    }
    proof {
        assert(data@.skip(i as int) =~= Seq::<Row>::empty());
    }
    results
}

/// The concatenation of the blocks, each preceded and followed as the file
/// write lays them out: every block ends with a newline.
pub open spec fn spec_blocks_concat(blocks: Seq<Seq<char>>) -> Seq<char>
    decreases blocks.len(),
{
    if blocks.len() == 0 {
        Seq::<char>::empty()
    } else {
        spec_blocks_concat(blocks.drop_last()) + blocks.last() + seq!['\n']
    }
}

/// The rewritten content of one Supplemental file after leg emission: the
/// original content, a newline, then each new detail block followed by a
/// newline.
pub open spec fn spec_process_file_content(
    file_name: Seq<char>,
    content: Seq<char>,
    data: Seq<Row>,
) -> Seq<char> {
    let icao = spec_stem(file_name);
    let procs = if spec_parse_extension(file_name) {
        spec_procs_acc(icao, spec_lines(content), false, Seq::empty())
    } else {
        Seq::empty()
    };
    let dets = if spec_parse_extension(file_name) {
        spec_details_acc(spec_lines(content), Seq::empty())
    } else {
        Seq::empty()
    };
    content + seq!['\n'] + spec_blocks_concat(
        legs_acc(icao, procs, dets, data, Option::None, 0, Seq::empty()),
    )
}

/// Processes one file: parses its listed procedures and present details,
/// generates the new blocks from the record stream, and returns the new file
/// content.
pub fn process_file_content(file_name: &str, content: &str, data: &Vec<Row>) -> (r: String)
    ensures
        r@ == spec_process_file_content(file_name@, content@, data@),
{
    let stem_end = scan_non_dot(file_name, 0);
    let icao = file_name.substring_char(0, stem_end);
    proof {
        assert(icao@ == spec_stem(file_name@));
    }
    let (procedures, details) = parse_files(file_name, content);
    proof {
        if !spec_parse_extension(file_name@) {
            assert(procedures.deep_view() =~= Seq::<Seq<char>>::empty());
            assert(details.deep_view() =~= Seq::<Seq<char>>::empty());
        }
    }
    let results = legs_generate(icao, &procedures, &details, data);
    let ghost blocks = results.deep_view();
    let mut out = content.to_owned();
    out.append("\n");
    proof {
        reveal_strlit("\n");
        assert(blocks.take(0) =~= Seq::<Seq<char>>::empty());
        assert(out@ =~= content@ + seq!['\n'] + spec_blocks_concat(blocks.take(0)));
    }
    let mut k: usize = 0;
    while k < results.len()
        invariant
            k <= blocks.len(),
            blocks == results.deep_view(),
            blocks.len() == results@.len(),
            forall|t: int| 0 <= t < blocks.len() ==> blocks[t] == #[trigger] results@[t]@,
            out@ == content@ + seq!['\n'] + spec_blocks_concat(blocks.take(k as int)),
        decreases blocks.len() - k,
    {
        out.append(results[k].as_str());
        out.append("\n");
        proof {
            reveal_strlit("\n");
            assert(blocks.take(k as int + 1).drop_last() =~= blocks.take(k as int));
            assert(blocks.take(k as int + 1).last() == blocks[k as int]);
            assert(out@ =~= content@ + seq!['\n'] + spec_blocks_concat(blocks.take(k as int + 1)));
        }
        k += 1;
    }
    proof {
        assert(blocks.take(k as int) =~= blocks);
    }
    out
}

/// A coordinate in 1e-7-degree units rendered as decimal degrees: an
/// optional minus sign, the whole degrees, a dot, and exactly seven
/// fractional digits.
pub open spec fn spec_coord_str(v: int) -> Seq<char> {
    let mag = if v < 0 {
        -v
    } else {
        v
    };
    (if v < 0 {
        seq!['-']
    } else {
        Seq::<char>::empty()
    }) + spec_digits((mag / 10000000) as nat) + seq!['.'] + spec_zfill(
        spec_digits((mag % 10000000) as nat),
        7,
    )
}

/// Renders a 1e-7-degree coordinate as decimal degrees.
pub fn coord_string(v: i64) -> (r: String)
    ensures
        r@ == spec_coord_str(v as int),
{
    let mag: u64 = if v < 0 {
        (-(v as i128)) as u64
    } else {
        v as u64
    };
    let whole = mag / 10000000;
    let frac = mag % 10000000;
    let mut s = String::new();
    if v < 0 {
        s.append("-");
    }
    s.append(u64_to_string(whole).as_str());
    s.append(".");
    s.append(zfill(u64_to_string(frac).as_str(), 7).as_str());
    proof {
        reveal_strlit("-");
        reveal_strlit(".");
        assert(s@ =~= spec_coord_str(v as int));
    }
    s
}

/// One extra column: a single `(key, value)` entry when the value is
/// present, nothing when it is absent.
pub open spec fn opt_kv(key: Seq<char>, v: Option<Seq<char>>) -> Seq<(Seq<char>, Seq<char>)> {
    match v {
        Option::Some(s) => seq![(key, s)],
        Option::None => Seq::<(Seq<char>, Seq<char>)>::empty(),
    }
}

/// The extra columns of a merged record, in emission order: every per-leg
/// field the merge produced, present exactly when the record holds it.
/// Coordinates render as decimal degrees and the map flag in decimal.
pub open spec fn spec_extras(m: MergedDataRow) -> Seq<(Seq<char>, Seq<char>)> {
    opt_kv("leg"@, opt_str_view(m.leg)) + opt_kv("turn_direction"@, opt_str_view(m.turn_direction))
        + opt_kv("name"@, opt_str_view(m.name)) + opt_kv(
        "latitude"@,
        match m.latitude {
            Option::Some(v) => Option::Some(spec_coord_str(v as int)),
            Option::None => Option::None,
        },
    ) + opt_kv(
        "longitude"@,
        match m.longitude {
            Option::Some(v) => Option::Some(spec_coord_str(v as int)),
            Option::None => Option::None,
        },
    ) + opt_kv("frequency"@, opt_str_view(m.frequency)) + opt_kv(
        "nav_bear"@,
        opt_str_view(m.nav_bear),
    ) + opt_kv("nav_dist"@, opt_str_view(m.nav_dist)) + opt_kv(
        "heading"@,
        opt_str_view(m.heading),
    ) + opt_kv("dist"@, opt_str_view(m.dist)) + opt_kv(
        "cross_this_point"@,
        opt_str_view(m.cross_this_point),
    ) + opt_kv("altitude"@, opt_str_view(m.altitude)) + opt_kv(
        "map"@,
        match m.map {
            Option::Some(v) => Option::Some(spec_int_str(v as int)),
            Option::None => Option::None,
        },
    ) + opt_kv("slope"@, opt_str_view(m.slope)) + opt_kv("speed"@, opt_str_view(m.speed))
        + opt_kv(
        "center_lat"@,
        match m.center_lat {
            Option::Some(v) => Option::Some(spec_coord_str(v as int)),
            Option::None => Option::None,
        },
    ) + opt_kv(
        "center_lon"@,
        match m.center_lon {
            Option::Some(v) => Option::Some(spec_coord_str(v as int)),
            Option::None => Option::None,
        },
    )
}

/// Appends one extra column when its value is present.
fn push_extra(extras: &mut Vec<(String, String)>, key: &str, value: Option<String>)
    ensures
        kv_views(final(extras)@) == kv_views(old(extras)@) + opt_kv(key@, opt_str_view(value)),
{
    let ghost pre = kv_views(extras@);
    match value {
        Option::Some(v) => {
            extras.push((key.to_owned(), v));
            proof {
                assert(kv_views(extras@) =~= pre + opt_kv(key@, opt_str_view(value)));
            }
        },
        Option::None => {
            proof {
                assert(kv_views(extras@) =~= pre + opt_kv(key@, opt_str_view(value)));
            }
        },
    }
}

/// Whether a row stream record matches a merged record after the conversion
/// the pipeline applies: a missing procedure type becomes the empty string,
/// a missing transition the fixed placeholder, a missing runway "00", and
/// the extra columns are every present per-leg field of the record, in
/// emission order.
pub open spec fn row_matches(r: Row, m: MergedDataRow) -> bool {
    &&& r.icao@ == m.icao@
    &&& r.type_field@ == (match m.type_field {
        Option::Some(t) => t@,
        Option::None => Seq::<char>::empty(),
    })
    &&& r.transition@ == (match m.transition {
        Option::Some(t) => t@,
        Option::None => "DEFAULT_TRANSITION"@,
    })
    &&& r.terminal@ == m.terminal@
    &&& r.rwy@ == (match m.rwy {
        Option::Some(t) => t@,
        Option::None => "00"@,
    })
    &&& kv_views(r.extras@) == spec_extras(m)
}

/// Converts the merged record stream into the row stream the leg emitter
/// walks.
pub fn rows_from_merged(merged: &Vec<MergedDataRow>) -> (r: Vec<Row>)
    ensures
        r@.len() == merged@.len(),
        forall|i: int| 0 <= i < r@.len() ==> row_matches(#[trigger] r@[i], merged@[i]),
{
    let mut rows: Vec<Row> = Vec::new();
    let mut i: usize = 0;
    while i < merged.len()
        invariant
            i <= merged@.len(),
            rows@.len() == i,
            forall|j: int| 0 <= j < i ==> row_matches(#[trigger] rows@[j], merged@[j]),
        decreases merged@.len() - i,
    {
        let m = &merged[i];
        let type_field = match &m.type_field {
            Option::Some(t) => t.clone(),
            Option::None => String::new(),
        };
        let transition = match &m.transition {
            Option::Some(t) => t.clone(),
            Option::None => "DEFAULT_TRANSITION".to_owned(),
        };
        let rwy = match &m.rwy {
            Option::Some(t) => t.clone(),
            Option::None => "00".to_owned(),
        };
        let mut extras: Vec<(String, String)> = Vec::new();
        proof {
            assert(kv_views(extras@) =~= Seq::<(Seq<char>, Seq<char>)>::empty());
        }
        push_extra(&mut extras, "leg", crate::records::clone_opt_string(&m.leg));
        proof {
            assert(Seq::<(Seq<char>, Seq<char>)>::empty() + opt_kv(
                "leg"@,
                opt_str_view(merged@[i as int].leg),
            ) =~= opt_kv("leg"@, opt_str_view(merged@[i as int].leg)));
        }
        push_extra(
            &mut extras,
            "turn_direction",
            crate::records::clone_opt_string(&m.turn_direction),
        );
        push_extra(&mut extras, "name", crate::records::clone_opt_string(&m.name));
        push_extra(
            &mut extras,
            "latitude",
            match m.latitude {
                Option::Some(v) => Option::Some(coord_string(v)),
                Option::None => Option::None,
            },
        );
        push_extra(
            &mut extras,
            "longitude",
            match m.longitude {
                Option::Some(v) => Option::Some(coord_string(v)),
                Option::None => Option::None,
            },
        );
        push_extra(&mut extras, "frequency", crate::records::clone_opt_string(&m.frequency));
        push_extra(&mut extras, "nav_bear", crate::records::clone_opt_string(&m.nav_bear));
        push_extra(&mut extras, "nav_dist", crate::records::clone_opt_string(&m.nav_dist));
        push_extra(&mut extras, "heading", crate::records::clone_opt_string(&m.heading));
        push_extra(&mut extras, "dist", crate::records::clone_opt_string(&m.dist));
        push_extra(
            &mut extras,
            "cross_this_point",
            crate::records::clone_opt_string(&m.cross_this_point),
        );
        push_extra(&mut extras, "altitude", crate::records::clone_opt_string(&m.altitude));
        push_extra(
            &mut extras,
            "map",
            match m.map {
                Option::Some(v) => Option::Some(i64_to_string(v as i64)),
                Option::None => Option::None,
            },
        );
        push_extra(&mut extras, "slope", crate::records::clone_opt_string(&m.slope));
        push_extra(&mut extras, "speed", crate::records::clone_opt_string(&m.speed));
        push_extra(
            &mut extras,
            "center_lat",
            match m.center_lat {
                Option::Some(v) => Option::Some(coord_string(v)),
                Option::None => Option::None,
            },
        );
        push_extra(
            &mut extras,
            "center_lon",
            match m.center_lon {
                Option::Some(v) => Option::Some(coord_string(v)),
                Option::None => Option::None,
            },
        );
        proof {
            assert(kv_views(extras@) == spec_extras(merged@[i as int]));
        }
        let row = Row {
            icao: m.icao.clone(),
            type_field,
            transition,
            terminal: m.terminal.clone(),
            rwy,
            extras,
        };
        proof {
            assert(row_matches(row, merged@[i as int]));
        }
        rows.push(row);
        i += 1;
    }
    rows
}


/// Round trip of a detail-block header: rendering `[t.v.n]` and parsing the
/// line back recovers the detail fingerprint `t ++ "." ++ v` exactly, for
/// whitespace-free `t` and `v` where `v` holds no dot.
pub proof fn lemma_detail_header_round_trip(t: Seq<char>, v: Seq<char>, n: nat)
    requires
        t.len() >= 1,
        v.len() >= 1,
        crate::text::non_space_run_end(t, 0) == t.len(),
        crate::text::non_space_run_end(v, 0) == v.len(),
        crate::text::non_dot_run_end(v, 0) == v.len(),
    ensures
        crate::parsing::spec_parse_detail_line(spec_header(t, v, n)) == Option::Some(
            t + seq!['.'] + v,
        ),
{
    let d = spec_digits(n);
    let l = spec_header(t, v, n);
    crate::numbers::lemma_spec_digits_shape(n);
    crate::text::lemma_non_space_run_end(t, 0);
    crate::text::lemma_non_space_run_end(v, 0);
    crate::text::lemma_non_dot_run_end(v, 0);
    let tl = t.len() as int;
    let vl = v.len() as int;
    let dl = d.len() as int;
    assert(l.len() == tl + vl + dl + 4);
    assert(l[0] == '[');
    assert(l[l.len() - 1] == ']');
    let inner = l.subrange(1, l.len() - 1);
    assert(inner =~= t + seq!['.'] + v + seq!['.'] + d);
    assert forall|j: int| 0 <= j < inner.len() implies !crate::text::char_is_space(
        inner[j],
    ) by {
        if j < tl {
            assert(inner[j] == t[j]);
        } else if j == tl {
            assert(inner[j] == '.');
        } else if j < tl + 1 + vl {
            assert(inner[j] == v[j - tl - 1]);
        } else if j == tl + 1 + vl {
            assert(inner[j] == '.');
        } else {
            assert(inner[j] == d[j - tl - vl - 2]);
            assert(crate::text::char_is_digit(inner[j]));
        }
    }
    crate::text::lemma_non_space_run_end_is(inner, 0, inner.len() as int);
    let k2 = tl + 1 + vl;
    assert(inner[k2] == '.');
    assert forall|k: int| k2 < k < inner.len() implies inner[k] != '.' by {
        if k < inner.len() {
            assert(inner[k] == d[k - tl - vl - 2]);
            assert(crate::text::char_is_digit(inner[k]));
        }
    }
    crate::parsing::lemma_last_dot_at(inner, inner.len() as int, k2);
    assert(inner[tl] == '.');
    assert forall|k: int| tl < k < k2 implies inner[k] != '.' by {
        assert(inner[k] == v[k - tl - 1]);
    }
    crate::parsing::lemma_last_dot_at(inner, k2, tl);
    assert forall|j: int| k2 + 1 <= j < inner.len() implies crate::text::char_is_digit(
        inner[j],
    ) by {
        assert(inner[j] == d[j - tl - vl - 2]);
    }
    assert(crate::numbers::is_digit_seq(inner.subrange(k2 + 1, inner.len() as int))) by {
        assert(forall|j: int|
            0 <= j < inner.subrange(k2 + 1, inner.len() as int).len()
                ==> #[trigger] inner.subrange(k2 + 1, inner.len() as int)[j] == inner[k2 + 1 + j]);
    }
    assert(inner.take(k2) =~= t + seq!['.'] + v);
}


/// Header numbering is contiguous: a block's number is zero where its
/// (transition, via) pair differs from the preceding block's, and one more
/// than the preceding number where the pair repeats.
pub open spec fn headers_numbered(acc: Seq<(Seq<char>, Seq<char>, nat)>) -> bool {
    forall|i: int|
        0 <= i < acc.len() ==> (#[trigger] acc[i]).2 == (if i > 0 && acc[i - 1].0 == acc[i].0
            && acc[i - 1].1 == acc[i].1 {
            acc[i - 1].2 + 1
        } else {
            0
        })
}

proof fn lemma_legs_numbering_step(
    icao: Seq<char>,
    procs: Seq<Seq<char>>,
    details: Seq<Seq<char>>,
    rows: Seq<Row>,
    cur: Option<(Seq<char>, Seq<char>)>,
    seqno: nat,
    acc: Seq<(Seq<char>, Seq<char>, nat)>,
)
    requires
        headers_numbered(acc),
        acc.len() > 0 ==> cur == Option::Some((acc.last().0, acc.last().1)) && seqno
            == acc.last().2,
        acc.len() == 0 ==> cur is None && seqno == 0,
    ensures
        headers_numbered(legs_headers_acc(icao, procs, details, rows, cur, seqno, acc)),
    decreases rows.len(),
{
    if rows.len() > 0 {
        let row = rows[0];
        if row.icao@ == icao {
            let (t, v) = spec_row_tv(row);
            let procedure = icao + seq!['.'] + t + seq!['.'] + v;
            let name = t + seq!['.'] + v;
            if procs.contains(procedure) && !details.contains(name) {
                let n: nat = if cur == Option::Some((t, v)) {
                    seqno + 1
                } else {
                    0
                };
                let acc2 = acc.push((t, v, n));
                assert(headers_numbered(acc2)) by {
                    assert forall|i: int| 0 <= i < acc2.len() implies (#[trigger] acc2[i]).2 == (
                    if i > 0 && acc2[i - 1].0 == acc2[i].0 && acc2[i - 1].1 == acc2[i].1 {
                        acc2[i - 1].2 + 1
                    } else {
                        0
                    }) by {
                        if i < acc.len() {
                            assert(acc2[i] == acc[i]);
                            if i > 0 {
                                assert(acc2[i - 1] == acc[i - 1]);
                            }
                        } else {
                            assert(acc2[i] == (t, v, n));
                            if acc.len() > 0 {
                                assert(acc2[i - 1] == acc.last());
                            }
                        }
                    }
                }
                lemma_legs_numbering_step(
                    icao,
                    procs,
                    details,
                    rows.drop_first(),
                    Option::Some((t, v)),
                    n,
                    acc2,
                );
            } else {
                lemma_legs_numbering_step(icao, procs, details, rows.drop_first(), cur, seqno, acc);
            }
        } else {
            lemma_legs_numbering_step(icao, procs, details, rows.drop_first(), cur, seqno, acc);
        }
    }
}

/// The numbering law of the leg emitter: over any record stream, the emitted
/// detail-block headers count 0, 1, 2, ... while the (transition, via) pair
/// repeats and restart at 0 when it changes. In particular, within each
/// maximal run of one pair no two headers are alike.
pub proof fn lemma_legs_numbering(
    icao: Seq<char>,
    procs: Seq<Seq<char>>,
    details: Seq<Seq<char>>,
    rows: Seq<Row>,
)
    ensures
        headers_numbered(
            legs_headers_acc(icao, procs, details, rows, Option::None, 0, Seq::empty()),
        ),
{
    lemma_legs_numbering_step(icao, procs, details, rows, Option::None, 0, Seq::empty());
}


/// The block renders the header with some extra columns.
pub open spec fn block_of_header(b: Seq<char>, h: (Seq<char>, Seq<char>, nat)) -> bool {
    exists|e: Seq<(Seq<char>, Seq<char>)>| #[trigger] spec_block(h.0, h.1, h.2, e) == b
}

/// The emitted blocks and the header view run in lockstep: block `k` is the
/// rendering of header `k` with some extra columns.
pub proof fn lemma_legs_blocks_have_headers(
    icao: Seq<char>,
    procs: Seq<Seq<char>>,
    details: Seq<Seq<char>>,
    rows: Seq<Row>,
    cur: Option<(Seq<char>, Seq<char>)>,
    seqno: nat,
    blocks: Seq<Seq<char>>,
    headers: Seq<(Seq<char>, Seq<char>, nat)>,
)
    requires
        blocks.len() == headers.len(),
        forall|k: int|
            0 <= k < blocks.len() ==> block_of_header(#[trigger] blocks[k], headers[k]),
    ensures
        ({
            let b = legs_acc(icao, procs, details, rows, cur, seqno, blocks);
            let h = legs_headers_acc(icao, procs, details, rows, cur, seqno, headers);
            b.len() == h.len() && (forall|k: int|
                0 <= k < b.len() ==> block_of_header(#[trigger] b[k], h[k]))
        }),
    decreases rows.len(),
{
    if rows.len() > 0 {
        let row = rows[0];
        if row.icao@ == icao {
            let (t, v) = spec_row_tv(row);
            let procedure = icao + seq!['.'] + t + seq!['.'] + v;
            let name = t + seq!['.'] + v;
            if procs.contains(procedure) && !details.contains(name) {
                let n: nat = if cur == Option::Some((t, v)) {
                    seqno + 1
                } else {
                    0
                };
                let b2 = blocks.push(spec_block(t, v, n, kv_views(row.extras@)));
                let h2 = headers.push((t, v, n));
                assert forall|k: int| 0 <= k < b2.len() implies block_of_header(
                    #[trigger] b2[k],
                    h2[k],
                ) by {
                    if k < blocks.len() {
                        assert(b2[k] == blocks[k]);
                        assert(h2[k] == headers[k]);
                    } else {
                        assert(b2[k] == spec_block(t, v, n, kv_views(row.extras@)));
                        assert(h2[k] == (t, v, n));
                        assert(spec_block(h2[k].0, h2[k].1, h2[k].2, kv_views(row.extras@))
                            == b2[k]);
                    }
                }
                lemma_legs_blocks_have_headers(
                    icao,
                    procs,
                    details,
                    rows.drop_first(),
                    Option::Some((t, v)),
                    n,
                    b2,
                    h2,
                );
            } else {
                lemma_legs_blocks_have_headers(
                    icao,
                    procs,
                    details,
                    rows.drop_first(),
                    cur,
                    seqno,
                    blocks,
                    headers,
                );
            }
        } else {
            lemma_legs_blocks_have_headers(
                icao,
                procs,
                details,
                rows.drop_first(),
                cur,
                seqno,
                blocks,
                headers,
            );
        }
    }
}


/// A record the emitter keeps for this file: the file's airport, a listed
/// procedure fingerprint, and no detail block present yet.
pub open spec fn row_selected(
    icao: Seq<char>,
    procs: Seq<Seq<char>>,
    details: Seq<Seq<char>>,
    row: Row,
) -> bool {
    row.icao@ == icao && {
        let (t, v) = spec_row_tv(row);
        procs.contains(icao + seq!['.'] + t + seq!['.'] + v) && !details.contains(
            t + seq!['.'] + v,
        )
    }
}

/// Among the records the emitter keeps, equal (transition, via) pairs stand
/// together: no kept record with another pair lies between two kept records
/// of one pair.
pub open spec fn selected_grouped(
    icao: Seq<char>,
    procs: Seq<Seq<char>>,
    details: Seq<Seq<char>>,
    rows: Seq<Row>,
) -> bool {
    forall|i: int, j: int, k: int|
        0 <= i < j < k < rows.len() && row_selected(icao, procs, details, #[trigger] rows[i])
            && row_selected(icao, procs, details, #[trigger] rows[j]) && row_selected(
            icao,
            procs,
            details,
            #[trigger] rows[k],
        ) && spec_row_tv(rows[i]) == spec_row_tv(rows[k]) ==> spec_row_tv(rows[j]) == spec_row_tv(
            rows[i],
        )
}

/// Equal header pairs stand together.
pub open spec fn pairs_contiguous(h: Seq<(Seq<char>, Seq<char>, nat)>) -> bool {
    forall|i: int, j: int, k: int|
        0 <= i < j < k < h.len() && ((#[trigger] h[i]).0, h[i].1) == ((#[trigger] h[k]).0, h[k].1)
            ==> ((#[trigger] h[j]).0, h[j].1) == (h[i].0, h[i].1)
}

proof fn lemma_legs_grouping_step(
    icao: Seq<char>,
    procs: Seq<Seq<char>>,
    details: Seq<Seq<char>>,
    rows: Seq<Row>,
    cur: Option<(Seq<char>, Seq<char>)>,
    seqno: nat,
    acc: Seq<(Seq<char>, Seq<char>, nat)>,
)
    requires
        pairs_contiguous(acc),
        acc.len() > 0 ==> cur == Option::Some((acc.last().0, acc.last().1)),
        acc.len() == 0 ==> cur is None,
        // a pair already closed in `acc` never comes back
        forall|m: int, i: int|
            0 <= m < rows.len() && 0 <= i < acc.len() && row_selected(
                icao,
                procs,
                details,
                #[trigger] rows[m],
            ) && ((#[trigger] acc[i]).0, acc[i].1) == spec_row_tv(rows[m]) ==> spec_row_tv(rows[m])
                == (acc.last().0, acc.last().1),
        // once the running pair is left, it never returns
        forall|m1: int, m2: int|
            0 <= m1 < m2 < rows.len() && acc.len() > 0 && row_selected(
                icao,
                procs,
                details,
                #[trigger] rows[m1],
            ) && row_selected(icao, procs, details, #[trigger] rows[m2]) && spec_row_tv(rows[m1])
                != (acc.last().0, acc.last().1) ==> spec_row_tv(rows[m2]) != (
            acc.last().0,
            acc.last().1,
            ),
        selected_grouped(icao, procs, details, rows),
    ensures
        pairs_contiguous(legs_headers_acc(icao, procs, details, rows, cur, seqno, acc)),
    decreases rows.len(), 1int,
{
    if rows.len() > 0 {
        let row = rows[0];
        let rest = rows.drop_first();
        assert(forall|m: int| 0 <= m < rest.len() ==> #[trigger] rest[m] == rows[m + 1]);
        if row.icao@ == icao {
            let (t, v) = spec_row_tv(row);
            let procedure = icao + seq!['.'] + t + seq!['.'] + v;
            let name = t + seq!['.'] + v;
            if procs.contains(procedure) && !details.contains(name) {
                assert(row_selected(icao, procs, details, row));
                let n: nat = if cur == Option::Some((t, v)) {
                    seqno + 1
                } else {
                    0
                };
                let acc2 = acc.push((t, v, n));
                // the new pair was not closed earlier
                assert forall|i: int|
                    0 <= i < acc.len() && ((#[trigger] acc[i]).0, acc[i].1) == (t, v) implies (
                t,
                v,
                ) == (acc.last().0, acc.last().1) by {
                    assert(spec_row_tv(rows[0]) == (t, v));
                }
                assert(pairs_contiguous(acc2)) by {
                    assert forall|i: int, j: int, k: int|
                        0 <= i < j < k < acc2.len() && ((#[trigger] acc2[i]).0, acc2[i].1) == ((
                        #[trigger] acc2[k]).0,
                        acc2[k].1,
                        ) implies ((#[trigger] acc2[j]).0, acc2[j].1) == (acc2[i].0, acc2[i].1) by {
                        if k < acc.len() {
                            assert(acc2[i] == acc[i] && acc2[j] == acc[j] && acc2[k] == acc[k]);
                        } else {
                            // k is the new header; its pair equals acc[i]'s, so that
                            // pair is the last group of acc, and everything from i on
                            // shares it
                            assert(acc2[k] == (t, v, n));
                            assert(acc2[i] == acc[i] && acc2[j] == acc[j]);
                            assert((acc[i].0, acc[i].1) == (t, v));
                            assert((t, v) == (acc.last().0, acc.last().1));
                            if j < acc.len() - 1 {
                                assert((acc[j].0, acc[j].1) == (acc[i].0, acc[i].1));
                            }
                        }
                    }
                }
                // closed pairs of acc2 stay closed in the remaining rows
                assert forall|m: int, i: int|
                    0 <= m < rest.len() && 0 <= i < acc2.len() && row_selected(
                        icao,
                        procs,
                        details,
                        #[trigger] rest[m],
                    ) && ((#[trigger] acc2[i]).0, acc2[i].1) == spec_row_tv(rest[m]) implies
                    spec_row_tv(rest[m]) == (acc2.last().0, acc2.last().1) by {
                    assert(rest[m] == rows[m + 1]);
                    if i < acc.len() {
                        if spec_row_tv(rest[m]) != (t, v) {
                            // the pair equals an old group, so it was the old last
                            assert(spec_row_tv(rows[m + 1]) == (acc.last().0, acc.last().1));
                            // rows[0] left that pair; it cannot return at m + 1
                            assert(spec_row_tv(rows[0]) != (acc.last().0, acc.last().1));
                            assert(false);
                        }
                    }
                }
                // once (t, v) is left it never returns, by grouping around rows[0]
                assert forall|m1: int, m2: int|
                    0 <= m1 < m2 < rest.len() && acc2.len() > 0 && row_selected(
                        icao,
                        procs,
                        details,
                        #[trigger] rest[m1],
                    ) && row_selected(icao, procs, details, #[trigger] rest[m2]) && spec_row_tv(
                        rest[m1],
                    ) != (acc2.last().0, acc2.last().1) implies spec_row_tv(rest[m2]) != (
                    acc2.last().0,
                    acc2.last().1,
                    ) by {
                    assert(rest[m1] == rows[m1 + 1] && rest[m2] == rows[m2 + 1]);
                    if spec_row_tv(rows[m2 + 1]) == (t, v) {
                        assert(spec_row_tv(rows[0]) == spec_row_tv(rows[m2 + 1]));
                        assert(spec_row_tv(rows[m1 + 1]) == spec_row_tv(rows[0]));
                        assert(false);
                    }
                }
                assert(selected_grouped(icao, procs, details, rest)) by {
                    assert forall|i: int, j: int, k: int|
                        0 <= i < j < k < rest.len() && row_selected(
                            icao,
                            procs,
                            details,
                            #[trigger] rest[i],
                        ) && row_selected(icao, procs, details, #[trigger] rest[j])
                            && row_selected(icao, procs, details, #[trigger] rest[k])
                            && spec_row_tv(rest[i]) == spec_row_tv(rest[k]) implies spec_row_tv(
                        rest[j],
                    ) == spec_row_tv(rest[i]) by {
                        assert(rest[i] == rows[i + 1] && rest[j] == rows[j + 1]);
                        assert(rest[k] == rows[k + 1]);
                    }
                }
                lemma_legs_grouping_step(
                    icao,
                    procs,
                    details,
                    rest,
                    Option::Some((t, v)),
                    n,
                    acc2,
                );
            } else {
                lemma_legs_grouping_skip(icao, procs, details, rows, cur, seqno, acc);
            }
        } else {
            lemma_legs_grouping_skip(icao, procs, details, rows, cur, seqno, acc);
        }
    }
}

/// The skipped-record case of the grouping induction.
proof fn lemma_legs_grouping_skip(
    icao: Seq<char>,
    procs: Seq<Seq<char>>,
    details: Seq<Seq<char>>,
    rows: Seq<Row>,
    cur: Option<(Seq<char>, Seq<char>)>,
    seqno: nat,
    acc: Seq<(Seq<char>, Seq<char>, nat)>,
)
    requires
        rows.len() > 0,
        !row_selected(icao, procs, details, rows[0]),
        pairs_contiguous(acc),
        acc.len() > 0 ==> cur == Option::Some((acc.last().0, acc.last().1)),
        acc.len() == 0 ==> cur is None,
        forall|m: int, i: int|
            0 <= m < rows.len() && 0 <= i < acc.len() && row_selected(
                icao,
                procs,
                details,
                #[trigger] rows[m],
            ) && ((#[trigger] acc[i]).0, acc[i].1) == spec_row_tv(rows[m]) ==> spec_row_tv(rows[m])
                == (acc.last().0, acc.last().1),
        forall|m1: int, m2: int|
            0 <= m1 < m2 < rows.len() && acc.len() > 0 && row_selected(
                icao,
                procs,
                details,
                #[trigger] rows[m1],
            ) && row_selected(icao, procs, details, #[trigger] rows[m2]) && spec_row_tv(rows[m1])
                != (acc.last().0, acc.last().1) ==> spec_row_tv(rows[m2]) != (
            acc.last().0,
            acc.last().1,
            ),
        selected_grouped(icao, procs, details, rows),
    ensures
        pairs_contiguous(legs_headers_acc(icao, procs, details, rows, cur, seqno, acc)),
    decreases rows.len(), 0int,
{
    let rest = rows.drop_first();
    assert(forall|m: int| 0 <= m < rest.len() ==> #[trigger] rest[m] == rows[m + 1]);
    assert(legs_headers_acc(icao, procs, details, rows, cur, seqno, acc) == legs_headers_acc(
        icao,
        procs,
        details,
        rest,
        cur,
        seqno,
        acc,
    ));
    assert(selected_grouped(icao, procs, details, rest)) by {
        assert forall|i: int, j: int, k: int|
            0 <= i < j < k < rest.len() && row_selected(icao, procs, details, #[trigger] rest[i])
                && row_selected(icao, procs, details, #[trigger] rest[j]) && row_selected(
                icao,
                procs,
                details,
                #[trigger] rest[k],
            ) && spec_row_tv(rest[i]) == spec_row_tv(rest[k]) implies spec_row_tv(rest[j])
            == spec_row_tv(rest[i]) by {
            assert(rest[i] == rows[i + 1] && rest[j] == rows[j + 1] && rest[k] == rows[k + 1]);
        }
    }
    lemma_legs_grouping_step(icao, procs, details, rest, cur, seqno, acc);
}

proof fn lemma_run_increments(h: Seq<(Seq<char>, Seq<char>, nat)>, i: int, k: int)
    requires
        headers_numbered(h),
        0 <= i <= k < h.len(),
        forall|m: int| i <= m <= k ==> ((#[trigger] h[m]).0, h[m].1) == (h[i].0, h[i].1),
    ensures
        h[k].2 == h[i].2 + (k - i),
    decreases k - i,
{
    if k > i {
        lemma_run_increments(h, i, k - 1);
        assert((h[k - 1].0, h[k - 1].1) == (h[i].0, h[i].1));
        assert((h[k].0, h[k].1) == (h[i].0, h[i].1));
        assert(h[k].2 == h[k - 1].2 + 1);
    }
}

/// No duplicate details: over a stream whose kept records stand grouped by
/// (transition, via) - as the sorted merge stream does when the runway keys
/// collide nowhere - no two emitted block headers are alike.
pub proof fn lemma_legs_headers_distinct(
    icao: Seq<char>,
    procs: Seq<Seq<char>>,
    details: Seq<Seq<char>>,
    rows: Seq<Row>,
)
    requires
        selected_grouped(icao, procs, details, rows),
    ensures
        ({
            let h = legs_headers_acc(icao, procs, details, rows, Option::None, 0, Seq::empty());
            forall|i: int, j: int| 0 <= i < j < h.len() ==> #[trigger] h[i] != #[trigger] h[j]
        }),
{
    let h = legs_headers_acc(icao, procs, details, rows, Option::None, 0, Seq::empty());
    lemma_legs_grouping_step(
        icao,
        procs,
        details,
        rows,
        Option::None,
        0,
        Seq::empty(),
    );
    lemma_legs_numbering(icao, procs, details, rows);
    assert forall|i: int, j: int| 0 <= i < j < h.len() implies #[trigger] h[i] != #[trigger] h[j] by {
        if h[i] == h[j] {
            assert forall|m: int| i <= m <= j implies ((#[trigger] h[m]).0, h[m].1) == (
            h[i].0,
            h[i].1,
            ) by {
                if i < m && m < j {
                    assert((h[i].0, h[i].1) == (h[j].0, h[j].1));
                }
            }
            lemma_run_increments(h, i, j);
            assert(h[j].2 == h[i].2 + (j - i));
            assert(false);
        }
    }
}

} // verus!
