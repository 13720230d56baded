//! Host discovery logic: parsing the process manager's unit listing and the
//! kernel's listening-socket table, choosing a primary port, classifying
//! services, and deciding what network probes mean.
use vstd::prelude::*;
use vstd::pervasive::VecAdditionalExecFns;

use crate::models::{
    humanized_of, spec_service_id, EntryV, ServiceEntry, ServiceProtocol, ServiceSource,
    ServiceStatus,
};
use crate::text::{
    after_last_colon, contains_chars, is_substring, lower_of, split_lines, split_ws,
    spec_parse_u16, dedup_adjacent, insert_ordered_by, sort_ordered_by,
};

verus! {

/// Whether any of the needles occurs in the haystack.
pub fn contains_any(haystack: &str, needles: &[&str]) -> (r: bool)
    ensures
        r == exists|k: int| 0 <= k < needles@.len() && is_substring(haystack@, needles@[k]@),
{
    let hv = crate::text::str_to_chars(haystack);
    let mut k: usize = 0;
    while k < needles.len()
        invariant
            k <= needles@.len(),
            hv@ == haystack@,
            forall|m: int| 0 <= m < k ==> !is_substring(haystack@, needles@[m]@),
        decreases needles@.len() - k,
    {
        let nv = crate::text::str_to_chars(needles[k]);
        if contains_chars(&hv, &nv) {
            return true;
        }
        k = k + 1;
    }
    false
}

/// The least port of a non-empty set.
pub open spec fn seq_min_u16(s: Seq<u16>) -> u16
    recommends
        s.len() > 0,
    decreases s.len(),
{
    if s.len() <= 1 {
        s[0]
    } else {
        let m = seq_min_u16(s.drop_last());
        if s.last() < m {
            s.last()
        } else {
            m
        }
    }
}

/// The primary port of a unit: the first hit in the fixed priority list
/// 443, 80, 8443, 8080, 3000, 8096, 9000, else the numerically smallest
/// port; none when no ports are known.
pub open spec fn spec_select_primary(ports: Seq<u16>) -> Option<u16> {
    if ports.len() == 0 {
        Option::None
    } else if ports.contains(443u16) {
        Option::Some(443u16)
    } else if ports.contains(80u16) {
        Option::Some(80u16)
    } else if ports.contains(8443u16) {
        Option::Some(8443u16)
    } else if ports.contains(8080u16) {
        Option::Some(8080u16)
    } else if ports.contains(3000u16) {
        Option::Some(3000u16)
    } else if ports.contains(8096u16) {
        Option::Some(8096u16)
    } else if ports.contains(9000u16) {
        Option::Some(9000u16)
    } else {
        Option::Some(seq_min_u16(ports))
    }
}

fn contains_u16(ports: &[u16], x: u16) -> (r: bool)
    ensures
        r == ports@.contains(x),
{
    let mut i: usize = 0;
    while i < ports.len()
        invariant
            i <= ports@.len(),
            forall|j: int| 0 <= j < i ==> ports@[j] != x,
        decreases ports@.len() - i,
    {
        if ports[i] == x {
            return true;
        }
        i = i + 1;
    }
    proof {
        assert(!ports@.contains(x));
    }
    false
}

/// Chooses the primary port of a unit.
pub fn select_primary_port(ports: &[u16]) -> (r: Option<u16>)
    ensures
        r == spec_select_primary(ports@),
{
    if ports.len() == 0 {
        return Option::None;
    }
    if contains_u16(ports, 443) {
        return Option::Some(443);
    }
    if contains_u16(ports, 80) {
        return Option::Some(80);
    }
    if contains_u16(ports, 8443) {
        return Option::Some(8443);
    }
    if contains_u16(ports, 8080) {
        return Option::Some(8080);
    }
    if contains_u16(ports, 3000) {
        return Option::Some(3000);
    }
    if contains_u16(ports, 8096) {
        return Option::Some(8096);
    }
    if contains_u16(ports, 9000) {
        return Option::Some(9000);
    }
    let mut m: u16 = ports[0];
    let mut i: usize = 1;
    proof {
        assert(ports@.take(1) =~= seq![ports@[0]]);
    }
    while i < ports.len()
        invariant
            1 <= i <= ports@.len(),
            m == seq_min_u16(ports@.take(i as int)),
        decreases ports@.len() - i,
    {
        proof {
            let q = ports@.take(i + 1);
            assert(q.drop_last() =~= ports@.take(i as int));
            assert(q.last() == ports@[i as int]);
        }
        if ports[i] < m {
            m = ports[i];
        }
        i = i + 1;
    }
    proof {
        assert(ports@.take(ports@.len() as int) =~= ports@);
    }
    Option::Some(m)
}

/// What a listening-socket line yields: the port parsed from the characters
/// after the last colon of the fourth whitespace-separated field, on lines
/// with at least five fields.
pub open spec fn spec_parse_port(line: Seq<char>) -> Option<u16> {
    let toks = split_ws(line);
    if toks.len() < 5 {
        Option::None
    } else {
        spec_parse_u16(after_last_colon(toks[3]))
    }
}

/// Extracts the local port from a listening-socket line.
pub(crate) fn parse_port_chars(line: &Vec<char>) -> (r: Option<u16>)
    ensures
        r == spec_parse_port(line@),
{
    let toks = crate::text::split_ws_chars(line);
    if toks.len() < 5 {
        return Option::None;
    }
    let tok = &toks[3];
    proof {
        assert(toks.deep_view()[3] =~= tok@);
    }
    let n = tok.len();
    let mut cut: usize = 0;
    let mut i: usize = 0;
    while i < n
        invariant
            cut <= i <= n,
            n == tok@.len(),
            cut == 0 || tok@[cut - 1] == ':',
            forall|j: int| cut <= j < i ==> tok@[j] != ':',
        decreases n - i,
    {
        if tok[i] == ':' {
            cut = i + 1;
        }
        i = i + 1;
    }
    proof {
        crate::text::lemma_after_last_colon(tok@, cut as int);
        assert(tok@.subrange(cut as int, n as int) =~= tok@.skip(cut as int));
    }
    crate::text::parse_u16_chars(tok, cut, n)
}

/// Extracts the local port from a listening-socket line.
pub fn parse_port(line: &str) -> (r: Option<u16>)
    ensures
        r == spec_parse_port(line@),
{
    let v = crate::text::str_to_chars(line);
    parse_port_chars(&v)
}

/// One unit as the process manager reports it.
#[derive(Debug)]
pub struct UnitStatus {
    pub name: String,
    pub status: ServiceStatus,
}

/// The mathematical value of a `UnitStatus`.
#[verifier::ext_equal]
pub struct UnitStatusV {
    pub name: Seq<char>,
    pub status: ServiceStatus,
}

impl DeepView for UnitStatus {
    type V = UnitStatusV;

    open spec fn deep_view(&self) -> UnitStatusV {
        UnitStatusV { name: self.name@, status: self.status }
    }
}

/// The run state read off a unit line: `running` means running, `exited` or
/// `dead` mean stopped, anything else is unknown.
pub open spec fn spec_status_of_line(line: Seq<char>) -> ServiceStatus {
    if is_substring(line, " running "@) {
        ServiceStatus::Running
    } else if is_substring(line, " exited "@) || is_substring(line, " dead "@) {
        ServiceStatus::Stopped
    } else {
        ServiceStatus::Unknown
    }
}

/// What a unit line yields: its first field when that carries the service
/// suffix, with the run state read off the line.
pub open spec fn spec_unit_of_line(line: Seq<char>) -> Option<UnitStatusV> {
    let toks = split_ws(line);
    if toks.len() == 0 {
        Option::None
    } else if !(toks[0].len() >= 8 && toks[0].subrange(toks[0].len() - 8, toks[0].len() as int)
        == ".service"@) {
        Option::None
    } else {
        Option::Some(UnitStatusV { name: toks[0], status: spec_status_of_line(line) })
    }
}

/// The first index holding `name`, or -1.
pub open spec fn find_unit(acc: Seq<UnitStatusV>, name: Seq<char>) -> int
    decreases acc.len(),
{
    if acc.len() == 0 {
        -1
    } else if acc[0].name == name {
        0
    } else {
        let r = find_unit(acc.drop_first(), name);
        if r < 0 {
            -1
        } else {
            r + 1
        }
    }
}

/// Replaces the entry named like `u`, or appends `u`: a later line wins.
pub open spec fn upsert_unit(acc: Seq<UnitStatusV>, u: UnitStatusV) -> Seq<UnitStatusV> {
    let i = find_unit(acc, u.name);
    if i >= 0 {
        acc.update(i, u)
    } else {
        acc.push(u)
    }
}

pub open spec fn units_of_lines(lines: Seq<Seq<char>>) -> Seq<UnitStatusV>
    decreases lines.len(),
{
    if lines.len() == 0 {
        Seq::empty()
    } else {
        let acc = units_of_lines(lines.drop_last());
        match spec_unit_of_line(lines.last()) {
            Option::None => acc,
            Option::Some(u) => upsert_unit(acc, u),
        }
    }
}

/// What parsing a unit listing yields: one entry per service unit, the last
/// line with a given name winning.
pub open spec fn spec_parse_units(s: Seq<char>) -> Seq<UnitStatusV> {
    units_of_lines(split_lines(s))
}

proof fn lemma_find_unit(acc: Seq<UnitStatusV>, name: Seq<char>, i: int)
    requires
        0 <= i <= acc.len(),
        forall|j: int| 0 <= j < i ==> acc[j].name != name,
        i < acc.len() ==> acc[i].name == name,
    ensures
        find_unit(acc, name) == if i < acc.len() {
            i
        } else {
            -1
        },
    decreases acc.len(),
{
    if acc.len() == 0 {
    } else if i == 0 {
    } else {
        assert(acc[0].name != name);
        lemma_find_unit(acc.drop_first(), name, i - 1);
    }
}

/// Parses the unit listing of the process manager: one line per unit, the
/// first field its name; only names with the service suffix are kept.
pub fn parse_units(text: &str) -> (r: Vec<UnitStatus>)
    ensures
        r.deep_view() == spec_parse_units(text@),
{
    let lines = crate::text::split_lines_str(text);
    let ghost lv = lines.deep_view();
    let mut units: Vec<UnitStatus> = Vec::new();
    let mut i: usize = 0;
    proof {
        assert(lv.take(0) =~~= Seq::<Seq<char>>::empty());
        assert(units.deep_view() =~~= units_of_lines(lv.take(0)));
    }
    while i < lines.len()
        invariant
            i <= lines@.len(),
            lv == lines.deep_view(),
            units.deep_view() == units_of_lines(lv.take(i as int)),
        decreases lines@.len() - i,
    {
        let line = &lines[i];
        let ghost q = lv.take(i + 1);
        proof {
            assert(q.drop_last() =~~= lv.take(i as int));
            assert(q.last() == lv[i as int]);
            assert(lv[i as int] =~= line@);
        }
        let toks = crate::text::split_ws_chars(line);
        if toks.len() == 0 {
            proof {
                assert(spec_unit_of_line(line@) is None);
                assert(units_of_lines(q) == units_of_lines(lv.take(i as int)));
            }
        } else {
            let name_chars = &toks[0];
            proof {
                assert(toks.deep_view()[0] =~= name_chars@);
            }
            if crate::models::ends_with_service(name_chars) {
                let running = crate::text::str_to_chars(" running ");
                let st = if contains_chars(line, &running) {
                    ServiceStatus::Running
                } else {
                    let exited = crate::text::str_to_chars(" exited ");
                    let dead = crate::text::str_to_chars(" dead ");
                    if contains_chars(line, &exited) || contains_chars(line, &dead) {
                        ServiceStatus::Stopped
                    } else {
                        ServiceStatus::Unknown
                    }
                };
                proof {
                    assert(st == spec_status_of_line(line@));
                }
                let name = crate::text::chars_to_string(name_chars);
                let ghost uv = UnitStatusV { name: name@, status: st };
                proof {
                    assert(uv =~= (UnitStatusV {
                        name: split_ws(line@)[0],
                        status: spec_status_of_line(line@),
                    }));
                    assert(spec_unit_of_line(line@) == Option::Some(uv));
                }
                let ghost udv = units.deep_view();
                let mut fi: usize = 0;
                while fi < units.len() && !crate::text::eq_str(
                    units[fi].name.as_str(),
                    name.as_str(),
                )
                    invariant
                        fi <= units@.len(),
                        udv == units.deep_view(),
                        uv.name == name@,
                        forall|j: int| 0 <= j < fi ==> udv[j].name != name@,
                    decreases units@.len() - fi,
                {
                    fi = fi + 1;
                }
                proof {
                    if fi < units@.len() {
                        assert(udv[fi as int].name == name@);
                    }
                    lemma_find_unit(udv, name@, fi as int);
                }
                if fi < units.len() {
                    units.set(fi, UnitStatus { name, status: st });
                    proof {
                        assert(units.deep_view() =~~= udv.update(fi as int, uv));
                        assert(units.deep_view() =~~= upsert_unit(udv, uv));
                    }
                } else {
                    units.push(UnitStatus { name, status: st });
                    proof {
                        assert(units.deep_view() =~~= udv.push(uv));
                        assert(units.deep_view() =~~= upsert_unit(udv, uv));
                    }
                }
                proof {
                    assert(units_of_lines(q) == upsert_unit(units_of_lines(lv.take(i as int)), uv));
                }
            } else {
                proof {
                    assert(spec_unit_of_line(line@) is None);
                    assert(units_of_lines(q) == units_of_lines(lv.take(i as int)));
                }
            }
        }
        i = i + 1;
    }
    proof {
        assert(lv.take(lines@.len() as int) =~~= lv);
    }
    units
}

/// One process with the ports it listens on.
#[derive(Debug)]
pub struct ProcessPorts {
    pub name: String,
    pub ports: Vec<u16>,
}

/// The mathematical value of a `ProcessPorts`.
#[verifier::ext_equal]
pub struct ProcessPortsV {
    pub name: Seq<char>,
    pub ports: Seq<u16>,
}

impl DeepView for ProcessPorts {
    type V = ProcessPortsV;

    open spec fn deep_view(&self) -> ProcessPortsV {
        ProcessPortsV { name: self.name@, ports: self.ports@ }
    }
}

/// The marker that introduces a socket's owning process.
pub open spec fn proc_marker() -> Seq<char> {
    "users:((\""@
}

/// The first quote at or after `p`, or -1.
pub open spec fn first_quote_from(line: Seq<char>, p: int) -> int
    decreases line.len() - p,
{
    if p < 0 || p >= line.len() {
        -1
    } else if line[p] == '"' {
        p
    } else {
        first_quote_from(line, p + 1)
    }
}

/// The process marker matches at `i` with a non-empty quoted name after it.
pub open spec fn process_at(line: Seq<char>, i: int) -> bool {
    &&& 0 <= i
    &&& i + 9 <= line.len()
    &&& line.subrange(i, i + 9) == proc_marker()
    &&& first_quote_from(line, i + 9) > i + 9
}

/// The first position where the process marker matches, or -1.
pub open spec fn first_match_from(line: Seq<char>, i: int) -> int
    decreases line.len() + 1 - i,
{
    if i < 0 || i + 9 > line.len() {
        -1
    } else if process_at(line, i) {
        i
    } else {
        first_match_from(line, i + 1)
    }
}

/// The quoted process name of a socket line, if any.
pub open spec fn spec_extract_process(line: Seq<char>) -> Option<Seq<char>> {
    let i = first_match_from(line, 0);
    if i < 0 {
        Option::None
    } else {
        Option::Some(line.subrange(i + 9, first_quote_from(line, i + 9)))
    }
}

/// The process key of a socket line: the lowercased quoted name, or
/// `unknown`.
pub open spec fn proc_name_of(line: Seq<char>) -> Seq<char> {
    match spec_extract_process(line) {
        Option::Some(c) => lower_of(c),
        Option::None => "unknown"@,
    }
}

proof fn lemma_first_quote_from(line: Seq<char>, p: int, j: int)
    requires
        0 <= p <= j <= line.len(),
        forall|k: int| p <= k < j ==> line[k] != '"',
        j < line.len() ==> line[j] == '"',
    ensures
        first_quote_from(line, p) == if j < line.len() {
            j
        } else {
            -1
        },
    decreases j - p,
{
    if p == j {
    } else {
        assert(line[p] != '"');
        lemma_first_quote_from(line, p + 1, j);
    }
}

proof fn lemma_first_match_from(line: Seq<char>, i: int)
    requires
        0 <= i,
        forall|k: int| 0 <= k < i ==> !process_at(line, k),
    ensures
        first_match_from(line, 0) == first_match_from(line, i),
    decreases i,
{
    if i > 0 {
        lemma_first_match_from(line, i - 1);
        if i - 1 + 9 > line.len() {
            assert(first_match_from(line, i - 1) == -1);
            assert(first_match_from(line, i) == -1);
        } else {
            assert(!process_at(line, i - 1));
        }
    }
}

/// Whether the process marker with a captured name matches at `i`, and where
/// the capture ends.
fn match_process_at(line: &Vec<char>, i: usize) -> (r: Option<usize>)
    requires
        i + 9 <= line@.len(),
    ensures
        r is Some ==> process_at(line@, i as int) && r.unwrap() == first_quote_from(
            line@,
            i + 9,
        ) && i + 9 < r.unwrap() <= line@.len(),
        r is None ==> !process_at(line@, i as int),
{
    let n = line.len();
    let marker = crate::text::str_to_chars("users:((\"");
    proof {
        reveal_strlit("users:((\"");
        assert(marker@.len() == 9);
    }
    let mut k: usize = 0;
    while k < 9
        invariant
            k <= 9,
            n == line@.len(),
            i + 9 <= n,
            marker@ == proc_marker(),
            marker@.len() == 9,
            forall|t: int| 0 <= t < k ==> line@[i + t] == marker@[t],
        decreases 9 - k,
    {
        if line[i + k] != marker[k] {
            proof {
                assert(line@.subrange(i as int, i + 9)[k as int] == line@[i + k]);
                assert(line@.subrange(i as int, i + 9) != proc_marker());
            }
            return Option::None;
        }
        k = k + 1;
    }
    proof {
        assert(line@.subrange(i as int, i + 9) =~= proc_marker());
    }
    // find the closing quote
    let mut j: usize = i + 9;
    while j < n && line[j] != '"'
        invariant
            i + 9 <= j <= n,
            n == line@.len(),
            forall|t: int| i + 9 <= t < j ==> line@[t] != '"',
        decreases n - j,
    {
        j = j + 1;
    }
    proof {
        lemma_first_quote_from(line@, i + 9, j as int);
    }
    if j < line.len() && j > i + 9 {
        Option::Some(j)
    } else {
        Option::None
    }
}

/// Extracts the lowercased process key of a socket line, `unknown` when the
/// line names none.
fn extract_process_key(line: &Vec<char>) -> (r: String)
    ensures
        r@ == proc_name_of(line@),
{
    let n = line.len();
    if n >= 9 {
        let stop = n - 9;
        let mut i: usize = 0;
        while i <= stop
            invariant
                i <= stop + 1,
                n == line@.len(),
                stop == n - 9,
                forall|k: int| 0 <= k < i ==> !process_at(line@, k),
            decreases stop + 1 - i,
        {
            match match_process_at(line, i) {
                Option::Some(j) => {
                    proof {
                        lemma_first_match_from(line@, i as int);
                        assert(first_match_from(line@, i as int) == i);
                    }
                    let mut cap: Vec<char> = Vec::new();
                    let mut t: usize = i + 9;
                    while t < j
                        invariant
                            i + 9 <= t <= j <= line@.len(),
                            cap@ == line@.subrange(i + 9, t as int),
                        decreases j - t,
                    {
                        cap.push(line[t]);
                        t = t + 1;
                        proof {
                            assert(cap@ =~= line@.subrange(i + 9, t as int));
                        }
                    }
                    let cap_str = crate::text::chars_to_string(&cap);
                    return crate::text::lower(cap_str.as_str());
                },
                Option::None => {},
            }
            i = i + 1;
        }
        proof {
            assert(forall|k: int| k > stop ==> !(k + 9 <= line@.len()) ==> !process_at(line@, k));
            lemma_first_match_from(line@, stop + 1);
            assert(first_match_from(line@, stop + 1) == -1);
        }
        "unknown".to_owned()
    } else {
        proof {
            assert(first_match_from(line@, 0) == -1);
        }
        "unknown".to_owned()
    }
}

/// The numeric order on ports.
pub open spec fn u16_leq_fn() -> spec_fn(u16, u16) -> bool {
    |a: u16, b: u16| a <= b
}

/// A port list sorted ascending with duplicates removed.
pub open spec fn sort_ports(s: Seq<u16>) -> Seq<u16> {
    dedup_adjacent(sort_ordered_by(u16_leq_fn(), s))
}

/// The first index holding `name`, or -1.
pub open spec fn find_proc(acc: Seq<ProcessPortsV>, name: Seq<char>) -> int
    decreases acc.len(),
{
    if acc.len() == 0 {
        -1
    } else if acc[0].name == name {
        0
    } else {
        let r = find_proc(acc.drop_first(), name);
        if r < 0 {
            -1
        } else {
            r + 1
        }
    }
}

/// Appends `port` to the process named `name`, creating it if absent.
pub open spec fn upsert_port(acc: Seq<ProcessPortsV>, name: Seq<char>, port: u16) -> Seq<
    ProcessPortsV,
> {
    let i = find_proc(acc, name);
    if i >= 0 {
        acc.update(i, ProcessPortsV { name: acc[i].name, ports: acc[i].ports.push(port) })
    } else {
        acc.push(ProcessPortsV { name: name, ports: seq![port] })
    }
}

pub open spec fn listen_fold(lines: Seq<Seq<char>>) -> Seq<ProcessPortsV>
    decreases lines.len(),
{
    if lines.len() == 0 {
        Seq::empty()
    } else {
        let acc = listen_fold(lines.drop_last());
        match spec_parse_port(lines.last()) {
            Option::None => acc,
            Option::Some(port) => upsert_port(acc, proc_name_of(lines.last()), port),
        }
    }
}

/// Each process's ports sorted ascending and deduplicated.
pub open spec fn sort_each(acc: Seq<ProcessPortsV>) -> Seq<ProcessPortsV> {
    acc.map_values(|e: ProcessPortsV| ProcessPortsV { name: e.name, ports: sort_ports(e.ports) })
}

/// What parsing the listening-socket table yields: the header line skipped,
/// each remaining line's port credited to its owning process (`unknown` when
/// none is named), and every port list sorted and deduplicated.
pub open spec fn spec_parse_listen(s: Seq<char>) -> Seq<ProcessPortsV> {
    let lines = split_lines(s);
    if lines.len() == 0 {
        Seq::empty()
    } else {
        sort_each(listen_fold(lines.drop_first()))
    }
}

proof fn lemma_find_proc(acc: Seq<ProcessPortsV>, name: Seq<char>, i: int)
    requires
        0 <= i <= acc.len(),
        forall|j: int| 0 <= j < i ==> acc[j].name != name,
        i < acc.len() ==> acc[i].name == name,
    ensures
        find_proc(acc, name) == if i < acc.len() {
            i
        } else {
            -1
        },
    decreases acc.len(),
{
    if acc.len() == 0 {
    } else if i == 0 {
    } else {
        assert(acc[0].name != name);
        lemma_find_proc(acc.drop_first(), name, i - 1);
    }
}

/// Sorts a port list ascending and removes duplicates.
fn sort_dedup_u16(v: &Vec<u16>) -> (r: Vec<u16>)
    ensures
        r@ == sort_ports(v@),
{
    let mut sorted: Vec<u16> = Vec::new();
    let mut k: usize = 0;
    proof {
        assert(v@.take(0) =~= Seq::<u16>::empty());
        assert(sorted@ =~= sort_ordered_by(u16_leq_fn(), v@.take(0)));
    }
    while k < v.len()
        invariant
            k <= v@.len(),
            sorted@ == sort_ordered_by(u16_leq_fn(), v@.take(k as int)),
        decreases v@.len() - k,
    {
        let e = v[k];
        let ghost sdv = sorted@;
        let mut j: usize = 0;
        while j < sorted.len() && sorted[j] <= e
            invariant
                j <= sorted@.len(),
                sdv == sorted@,
                forall|m: int| 0 <= m < j ==> sdv[m] <= e,
            decreases sorted@.len() - j,
        {
            j = j + 1;
        }
        proof {
            assert(forall|m: int| 0 <= m < j ==> (u16_leq_fn())(sdv[m], e));
            if (j as int) < sdv.len() {
                assert(!(u16_leq_fn())(sdv[j as int], e));
            }
            crate::text::lemma_insert_ordered_split(u16_leq_fn(), sdv, e, j as int);
        }
        sorted.insert(j, e);
        proof {
            assert(sorted@ =~= sdv.take(j as int) + seq![e] + sdv.skip(j as int));
            let q = v@.take(k + 1);
            assert(q.drop_last() =~= v@.take(k as int));
            assert(q.last() == v@[k as int]);
            assert(sorted@ =~= sort_ordered_by(u16_leq_fn(), q));
        }
        k = k + 1;
    }
    proof {
        assert(v@.take(v@.len() as int) =~= v@);
    }
    let ghost sdv2 = sorted@;
    let mut out: Vec<u16> = Vec::new();
    let mut d: usize = 0;
    proof {
        assert(sdv2.take(0) =~= Seq::<u16>::empty());
        assert(out@ =~= dedup_adjacent(sdv2.take(0)));
    }
    while d < sorted.len()
        invariant
            d <= sorted@.len(),
            sdv2 == sorted@,
            out@ == dedup_adjacent(sdv2.take(d as int)),
        decreases sorted@.len() - d,
    {
        let ghost q = sdv2.take(d + 1);
        proof {
            assert(q.drop_last() =~= sdv2.take(d as int));
            assert(q.last() == sdv2[d as int]);
        }
        let is_dup = if d == 0 {
            false
        } else {
            sorted[d - 1] == sorted[d]
        };
        if !is_dup {
            let ghost o0 = out@;
            out.push(sorted[d]);
            proof {
                if d == 0 {
                    assert(q.len() == 1);
                    assert(dedup_adjacent(q) == q);
                    assert(out@ =~= q);
                } else {
                    assert(q[q.len() - 2] == sdv2[d - 1]);
                    assert(dedup_adjacent(q) == dedup_adjacent(sdv2.take(d as int)).push(q.last()));
                }
            }
        } else {
            proof {
                assert(q[q.len() - 2] == sdv2[d - 1]);
                assert(dedup_adjacent(q) == dedup_adjacent(sdv2.take(d as int)));
            }
        }
        d = d + 1;
    }
    proof {
        assert(sdv2.take(sorted@.len() as int) =~= sdv2);
    }
    out
}

/// Parses the listening-socket table: credits each line's local port to its
/// owning process and sorts every port list.
pub fn parse_listen_ports(text: &str) -> (r: Vec<ProcessPorts>)
    ensures
        r.deep_view() == spec_parse_listen(text@),
{
    let lines = crate::text::split_lines_str(text);
    let ghost lv = lines.deep_view();
    let mut acc: Vec<ProcessPorts> = Vec::new();
    if lines.len() == 0 {
        proof {
            assert(acc.deep_view() =~~= spec_parse_listen(text@));
        }
        return acc;
    }
    let ghost body = lv.drop_first();
    let mut i: usize = 1;
    proof {
        assert(body.take(0) =~~= Seq::<Seq<char>>::empty());
        assert(acc.deep_view() =~~= listen_fold(body.take(0)));
    }
    while i < lines.len()
        invariant
            1 <= i <= lines@.len(),
            lv == lines.deep_view(),
            lv.len() == lines@.len(),
            body == lv.drop_first(),
            acc.deep_view() == listen_fold(body.take(i - 1)),
        decreases lines@.len() - i,
    {
        let line = &lines[i];
        let ghost q = body.take(i as int);
        proof {
            assert(q.drop_last() =~~= body.take(i - 1));
            assert(q.last() == body[i - 1]);
            assert(body[i - 1] == lv[i as int]);
            assert(lv[i as int] =~= line@);
        }
        match parse_port_chars(line) {
            Option::None => {
                proof {
                    assert(listen_fold(q) == listen_fold(body.take(i - 1)));
                }
            },
            Option::Some(port) => {
                let key = extract_process_key(line);
                let ghost adv = acc.deep_view();
                let mut fi: usize = 0;
                while fi < acc.len() && !crate::text::eq_str(acc[fi].name.as_str(), key.as_str())
                    invariant
                        fi <= acc@.len(),
                        adv == acc.deep_view(),
                        forall|j: int| 0 <= j < fi ==> adv[j].name != key@,
                    decreases acc@.len() - fi,
                {
                    fi = fi + 1;
                }
                proof {
                    if fi < acc@.len() {
                        assert(adv[fi as int].name == key@);
                    }
                    lemma_find_proc(adv, key@, fi as int);
                }
                if fi < acc.len() {
                    let mut ports = acc[fi].ports.clone();
                    proof {
                        assert(ports@ =~= adv[fi as int].ports);
                    }
                    ports.push(port);
                    let name2 = acc[fi].name.clone();
                    acc.set(fi, ProcessPorts { name: name2, ports });
                    proof {
                        assert(acc.deep_view() =~~= upsert_port(adv, key@, port));
                        assert(listen_fold(q) == upsert_port(listen_fold(body.take(i - 1)), key@, port));
                    }
                } else {
                    let mut ports: Vec<u16> = Vec::new();
                    ports.push(port);
                    proof {
                        assert(ports@ =~= seq![port]);
                    }
                    acc.push(ProcessPorts { name: key, ports });
                    proof {
                        assert(acc.deep_view() =~~= upsert_port(adv, proc_name_of(line@), port));
                        assert(listen_fold(q) == upsert_port(listen_fold(body.take(i - 1)), proc_name_of(line@), port));
                    }
                }
            },
        }
        i = i + 1;
    }
    proof {
        assert(body.take(lines@.len() - 1) =~~= body);
    }
    // sort and deduplicate every port list
    let ghost adv2 = acc.deep_view();
    let mut out: Vec<ProcessPorts> = Vec::new();
    let mut t: usize = 0;
    while t < acc.len()
        invariant
            t <= acc@.len(),
            adv2 == acc.deep_view(),
            out.deep_view().len() == t,
            forall|m: int| 0 <= m < t ==> out.deep_view()[m] == (ProcessPortsV {
                name: adv2[m].name,
                ports: sort_ports(adv2[m].ports),
            }),
        decreases acc@.len() - t,
    {
        let sorted = sort_dedup_u16(&acc[t].ports);
        proof {
            assert(adv2[t as int].ports == acc@[t as int].ports@);
        }
        let ghost odv = out.deep_view();
        let name2 = acc[t].name.clone();
        out.push(ProcessPorts { name: name2, ports: sorted });
        proof {
            assert(out.deep_view() =~~= odv.push(
                ProcessPortsV { name: acc@[t as int].name@, ports: sort_ports(adv2[t as int].ports) },
            ));
            assert(out.deep_view()[t as int] =~~= (ProcessPortsV {
                name: adv2[t as int].name,
                ports: sort_ports(adv2[t as int].ports),
            }));
        }
        t = t + 1;
    }
    proof {
        assert(out.deep_view() =~~= sort_each(adv2));
        assert(out.deep_view() =~~= spec_parse_listen(text@));
    }
    out
}

/// How many units report as running.
pub open spec fn spec_count_running(s: Seq<UnitStatusV>) -> int
    decreases s.len(),
{
    if s.len() == 0 {
        0
    } else {
        spec_count_running(s.drop_last()) + if s.last().status == ServiceStatus::Running {
            1int
        } else {
            0int
        }
    }
}

/// Counts the units that report as running.
pub fn count_running(units: &Vec<UnitStatus>) -> (r: usize)
    ensures
        r == spec_count_running(units.deep_view()),
{
    let ghost dv = units.deep_view();
    let mut r: usize = 0;
    let mut i: usize = 0;
    proof {
        assert(dv.take(0) =~~= Seq::<UnitStatusV>::empty());
    }
    while i < units.len()
        invariant
            i <= units@.len(),
            dv == units.deep_view(),
            r <= i,
            r == spec_count_running(dv.take(i as int)),
        decreases units@.len() - i,
    {
        proof {
            let q = dv.take(i + 1);
            assert(q.drop_last() =~~= dv.take(i as int));
            assert(q.last() == dv[i as int]);
        }
        let is_running = match units[i].status {
            ServiceStatus::Running => true,
            _ => false,
        };
        if is_running {
            r = r + 1;
        }
        i = i + 1;
    }
    proof {
        assert(dv.take(units@.len() as int) =~~= dv);
    }
    r
}

/// The lookup key of a unit: trimmed, the service suffix stripped,
/// lowercased.
pub open spec fn spec_unit_key(unit: Seq<char>) -> Seq<char> {
    lower_of(crate::models::strip_service_suffix(crate::text::trim_of(unit)))
}

/// Computes the lookup key of a unit name.
pub fn unit_key(unit: &str) -> (r: String)
    ensures
        r@ == spec_unit_key(unit@),
{
    let t = crate::text::trim_str(unit);
    let chars = crate::text::str_to_chars(t.as_str());
    let stripped = crate::models::strip_service_suffix_chars(chars);
    let s = crate::text::chars_to_string(&stripped);
    crate::text::lower(s.as_str())
}

/// The ports of the first process associated with `key` by substring
/// containment in either direction; empty when none matches.
pub open spec fn spec_ports_for(listen: Seq<ProcessPortsV>, key: Seq<char>) -> Seq<u16>
    decreases listen.len(),
{
    if listen.len() == 0 {
        Seq::empty()
    } else if is_substring(listen[0].name, key) || is_substring(key, listen[0].name) {
        listen[0].ports
    } else {
        spec_ports_for(listen.drop_first(), key)
    }
}

/// Finds the ports associated with a unit's lookup key.
pub fn ports_for_unit(listen: &Vec<ProcessPorts>, key: &str) -> (r: Vec<u16>)
    ensures
        r@ == spec_ports_for(listen.deep_view(), key@),
{
    let ghost ldv = listen.deep_view();
    let kv = crate::text::str_to_chars(key);
    let mut i: usize = 0;
    proof {
        assert(ldv.skip(0) =~~= ldv);
    }
    while i < listen.len()
        invariant
            i <= listen@.len(),
            ldv == listen.deep_view(),
            kv@ == key@,
            spec_ports_for(ldv, key@) == spec_ports_for(ldv.skip(i as int), key@),
        decreases listen@.len() - i,
    {
        proof {
            assert(ldv.skip(i as int)[0] == ldv[i as int]);
            assert(ldv.skip(i as int).drop_first() =~~= ldv.skip(i + 1));
        }
        let nv = crate::text::str_to_chars(listen[i].name.as_str());
        proof {
            assert(nv@ == ldv[i as int].name);
        }
        if contains_chars(&nv, &kv) || contains_chars(&kv, &nv) {
            let mut r: Vec<u16> = Vec::new();
            let mut j: usize = 0;
            while j < listen[i].ports.len()
                invariant
                    i < listen@.len(),
                    j <= listen@[i as int].ports@.len(),
                    r@ == listen@[i as int].ports@.take(j as int),
                decreases listen@[i as int].ports@.len() - j,
            {
                r.push(listen[i].ports[j]);
                j = j + 1;
                proof {
                    assert(r@ =~= listen@[i as int].ports@.take(j as int));
                }
            }
            proof {
                assert(listen@[i as int].ports@.take(listen@[i as int].ports@.len() as int)
                    =~= listen@[i as int].ports@);
                assert(r@ == ldv[i as int].ports);
            }
            return r;
        }
        i = i + 1;
    }
    proof {
        assert(ldv.skip(listen@.len() as int) =~~= Seq::<ProcessPortsV>::empty());
    }
    Vec::new()
}

/// One unit prepared for probing: its cleaned name, run state, and chosen
/// primary port.
#[derive(Debug)]
pub struct DiscoveryCandidate {
    pub name: String,
    pub status: ServiceStatus,
    pub primary_port: Option<u16>,
}

/// The mathematical value of a `DiscoveryCandidate`.
#[verifier::ext_equal]
pub struct DiscoveryCandidateV {
    pub name: Seq<char>,
    pub status: ServiceStatus,
    pub primary_port: Option<u16>,
}

impl DeepView for DiscoveryCandidate {
    type V = DiscoveryCandidateV;

    open spec fn deep_view(&self) -> DiscoveryCandidateV {
        DiscoveryCandidateV {
            name: self.name@,
            status: self.status,
            primary_port: self.primary_port,
        }
    }
}

/// The candidate built from one unit: trimmed name, and the primary port
/// chosen among the ports of the process associated with its key.
pub open spec fn spec_candidate(u: UnitStatusV, listen: Seq<ProcessPortsV>) -> DiscoveryCandidateV {
    DiscoveryCandidateV {
        name: crate::text::trim_of(u.name),
        status: u.status,
        primary_port: spec_select_primary(spec_ports_for(listen, spec_unit_key(u.name))),
    }
}

/// The candidates of all units.
pub open spec fn spec_candidates(units: Seq<UnitStatusV>, listen: Seq<ProcessPortsV>) -> Seq<
    DiscoveryCandidateV,
> {
    units.map_values(|u: UnitStatusV| spec_candidate(u, listen))
}

/// Prepares every unit for probing: pairs it with its ports and primary port.
pub fn discovery_candidates(units: &Vec<UnitStatus>, listen: &Vec<ProcessPorts>) -> (r: Vec<
    DiscoveryCandidate,
>)
    ensures
        r.deep_view() == spec_candidates(units.deep_view(), listen.deep_view()),
{
    let ghost udv = units.deep_view();
    let ghost ldv = listen.deep_view();
    let mut r: Vec<DiscoveryCandidate> = Vec::new();
    let mut i: usize = 0;
    while i < units.len()
        invariant
            i <= units@.len(),
            udv == units.deep_view(),
            ldv == listen.deep_view(),
            r.deep_view().len() == i,
            forall|m: int| 0 <= m < i ==> r.deep_view()[m] == spec_candidate(udv[m], ldv),
        decreases units@.len() - i,
    {
        let name = crate::text::trim_str(units[i].name.as_str());
        let key = unit_key(units[i].name.as_str());
        let ports = ports_for_unit(listen, key.as_str());
        let primary = select_primary_port(ports.as_slice());
        let ghost rdv = r.deep_view();
        r.push(DiscoveryCandidate { name, status: units[i].status, primary_port: primary });
        proof {
            assert(r.deep_view() =~~= rdv.push(
                DiscoveryCandidateV {
                    name: crate::text::trim_of(udv[i as int].name),
                    status: udv[i as int].status,
                    primary_port: spec_select_primary(
                        spec_ports_for(ldv, spec_unit_key(udv[i as int].name)),
                    ),
                },
            ));
            assert(r.deep_view()[i as int] =~~= spec_candidate(udv[i as int], ldv));
        }
        i = i + 1;
    }
    proof {
        assert(r.deep_view() =~~= spec_candidates(udv, ldv));
    }
    r
}

/// The entry a discovery pass builds for a probed unit.
pub open spec fn spec_discovered_entry(
    name: Seq<char>,
    status: ServiceStatus,
    port: Option<u16>,
    protocol: ServiceProtocol,
    default_host: Seq<char>,
    now: i64,
) -> EntryV {
    EntryV {
        id: spec_service_id(name),
        service_name: name,
        display_name: humanized_of(name),
        description: Option::None,
        host: default_host,
        port: port,
        protocol: protocol,
        path: Option::None,
        url: Option::None,
        status: status,
        group: Option::None,
        tags: Seq::empty(),
        icon: Option::None,
        hidden: false,
        favorite: false,
        source: ServiceSource::Auto,
        locked_fields: Seq::empty(),
        last_seen_at: Option::Some(now),
        updated_at: now,
    }
}

/// Builds the entry a discovery pass records for a probed unit.
pub fn discovered_entry(
    unit_name: &str,
    status: ServiceStatus,
    port: Option<u16>,
    protocol: ServiceProtocol,
    default_host: &str,
    now: i64,
) -> (r: ServiceEntry)
    ensures
        r.deep_view() == spec_discovered_entry(unit_name@, status, port, protocol, default_host@, now),
{
    let r = ServiceEntry {
        id: crate::models::service_id(unit_name),
        service_name: unit_name.to_owned(),
        display_name: crate::models::humanize_service_name(unit_name),
        description: Option::None,
        host: default_host.to_owned(),
        port,
        protocol,
        path: Option::None,
        url: Option::None,
        status,
        group: Option::None,
        tags: Vec::new(),
        icon: Option::None,
        hidden: false,
        favorite: false,
        source: ServiceSource::Auto,
        locked_fields: Vec::new(),
        last_seen_at: Option::Some(now),
        updated_at: now,
    };
    proof {
        assert(r.deep_view() =~~= spec_discovered_entry(
            unit_name@,
            status,
            port,
            protocol,
            default_host@,
            now,
        ));
    }
    r
}

/// An icon, defaulted when absent.
pub open spec fn or_default_icon(icon: Option<Seq<char>>, d: Seq<char>) -> Option<Seq<char>> {
    match icon {
        Option::Some(i) => Option::Some(i),
        Option::None => Option::Some(d),
    }
}

/// How classification changes an entry. A unit without a port is hidden in
/// the system group; one with a pre-assigned group is just made visible;
/// otherwise the lowercased unit base name is matched against fixed keyword
/// sets, first match wins, and only the reverse-proxy bucket stays hidden.
pub open spec fn spec_classify(e: EntryV) -> EntryV {
    let unit = lower_of(crate::models::strip_service_suffix(e.service_name));
    if e.port is None {
        EntryV {
            group: if e.group is None {
                Option::Some("系统"@)
            } else {
                e.group
            },
            hidden: true,
            ..e
        }
    } else if e.group is Some {
        EntryV { hidden: false, ..e }
    } else if is_substring(unit, "syncthing"@) {
        EntryV {
            group: Option::Some("同步"@),
            icon: or_default_icon(e.icon, "🔄"@),
            hidden: false,
            ..e
        }
    } else if is_substring(unit, "immich"@) {
        EntryV {
            group: Option::Some("照片"@),
            icon: or_default_icon(e.icon, "📷"@),
            hidden: false,
            ..e
        }
    } else if is_substring(unit, "aria2"@) || is_substring(unit, "ariang"@) || is_substring(
        unit,
        "qbittorrent"@,
    ) || is_substring(unit, "transmission"@) {
        EntryV {
            group: Option::Some("下载"@),
            icon: or_default_icon(e.icon, "⬇️"@),
            hidden: false,
            ..e
        }
    } else if is_substring(unit, "jellyfin"@) || is_substring(unit, "plex"@) || is_substring(
        unit,
        "emby"@,
    ) {
        EntryV {
            group: Option::Some("影音"@),
            icon: or_default_icon(e.icon, "🎬"@),
            hidden: false,
            ..e
        }
    } else if is_substring(unit, "grafana"@) || is_substring(unit, "prometheus"@) || is_substring(
        unit,
        "loki"@,
    ) {
        EntryV {
            group: Option::Some("监控"@),
            icon: or_default_icon(e.icon, "📈"@),
            hidden: false,
            ..e
        }
    } else if is_substring(unit, "nginx"@) || is_substring(unit, "caddy"@) || is_substring(
        unit,
        "traefik"@,
    ) {
        EntryV {
            group: Option::Some("系统"@),
            icon: or_default_icon(e.icon, "🌐"@),
            hidden: true,
            ..e
        }
    } else {
        EntryV { group: Option::Some("其他"@), hidden: false, ..e }
    }
}

/// The label of the system/reverse-proxy group.
pub fn group_system() -> (r: &'static str)
    ensures
        r@ == "系统"@,
{
    "系统"
}

/// The label of the synchronization group.
pub fn group_sync() -> (r: &'static str)
    ensures
        r@ == "同步"@,
{
    "同步"
}

/// The label of the catch-all group.
pub fn group_other() -> (r: &'static str)
    ensures
        r@ == "其他"@,
{
    "其他"
}

/// Classifies an entry in place.
pub fn classify_service(entry: &mut ServiceEntry)
    ensures
        final(entry).deep_view() == spec_classify(old(entry).deep_view()),
{
    let chars = crate::text::str_to_chars(entry.service_name.as_str());
    let stripped = crate::models::strip_service_suffix_chars(chars);
    let stripped_str = crate::text::chars_to_string(&stripped);
    let unit = crate::text::lower(stripped_str.as_str());
    let u = unit.as_str();
    if entry.port.is_none() {
        if entry.group.is_none() {
            entry.group = Option::Some("系统".to_owned());
        }
        entry.hidden = true;
        proof {
            assert(entry.deep_view() =~~= spec_classify(old(entry).deep_view()));
        }
        return ;
    }
    if entry.group.is_some() {
        entry.hidden = false;
        proof {
            assert(entry.deep_view() =~~= spec_classify(old(entry).deep_view()));
        }
        return ;
    }
    if crate::text::contains_str(u, "syncthing") {
        entry.group = Option::Some("同步".to_owned());
        if entry.icon.is_none() {
            entry.icon = Option::Some("🔄".to_owned());
        }
        entry.hidden = false;
    } else if crate::text::contains_str(u, "immich") {
        entry.group = Option::Some("照片".to_owned());
        if entry.icon.is_none() {
            entry.icon = Option::Some("📷".to_owned());
        }
        entry.hidden = false;
    } else if crate::text::contains_str(u, "aria2") || crate::text::contains_str(u, "ariang")
        || crate::text::contains_str(u, "qbittorrent") || crate::text::contains_str(
        u,
        "transmission",
    ) {
        entry.group = Option::Some("下载".to_owned());
        if entry.icon.is_none() {
            entry.icon = Option::Some("⬇️".to_owned());
        }
        entry.hidden = false;
    } else if crate::text::contains_str(u, "jellyfin") || crate::text::contains_str(u, "plex")
        || crate::text::contains_str(u, "emby") {
        entry.group = Option::Some("影音".to_owned());
        if entry.icon.is_none() {
            entry.icon = Option::Some("🎬".to_owned());
        }
        entry.hidden = false;
    } else if crate::text::contains_str(u, "grafana") || crate::text::contains_str(u, "prometheus")
        || crate::text::contains_str(u, "loki") {
        entry.group = Option::Some("监控".to_owned());
        if entry.icon.is_none() {
            entry.icon = Option::Some("📈".to_owned());
        }
        entry.hidden = false;
    } else if crate::text::contains_str(u, "nginx") || crate::text::contains_str(u, "caddy")
        || crate::text::contains_str(u, "traefik") {
        entry.group = Option::Some("系统".to_owned());
        if entry.icon.is_none() {
            entry.icon = Option::Some("🌐".to_owned());
        }
        entry.hidden = true;
    } else {
        entry.group = Option::Some("其他".to_owned());
        entry.hidden = false;
    }
    proof {
        assert(entry.deep_view() =~~= spec_classify(old(entry).deep_view()));
    }
}

/// Whether an HTTP response status counts as a positive signal: any value in
/// the full status range does.
pub fn is_positive_http_signal(status_code: u16) -> (r: bool)
    ensures
        r == (0 < status_code && status_code < 600),
{
    status_code > 0 && status_code < 600
}

/// A transport error message that means nothing listens there.
pub open spec fn spec_error_negative(msg: Seq<char>) -> bool {
    ||| is_substring(lower_of(msg), "connection refused"@)
    ||| is_substring(lower_of(msg), "timeout"@)
    ||| is_substring(lower_of(msg), "unable to connect"@)
}

/// Whether a failed probe still indicates a listener behind the scheme: any
/// error other than refusal, timeout or unreachability does.
pub fn probe_error_indicates_listener(msg: &str) -> (r: bool)
    ensures
        r == !spec_error_negative(msg@),
{
    let lowered = crate::text::lower(msg);
    let lv = crate::text::str_to_chars(lowered.as_str());
    let refused = crate::text::str_to_chars("connection refused");
    let timeout = crate::text::str_to_chars("timeout");
    let unreachable = crate::text::str_to_chars("unable to connect");
    let negative = contains_chars(&lv, &refused) || contains_chars(&lv, &timeout)
        || contains_chars(&lv, &unreachable);
    !negative
}

/// The protocol concluded from the two probes: the secure scheme wins, then
/// the plain one, else bare TCP.
pub fn protocol_from_probes(https_positive: bool, http_positive: bool) -> (r: ServiceProtocol)
    ensures
        r == (if https_positive {
            ServiceProtocol::Https
        } else if http_positive {
            ServiceProtocol::Http
        } else {
            ServiceProtocol::Tcp
        }),
{
    if https_positive {
        ServiceProtocol::Https
    } else if http_positive {
        ServiceProtocol::Http
    } else {
        ServiceProtocol::Tcp
    }
}

} // verus!
