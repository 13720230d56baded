//! The catalog's on-disk text: a pretty-printed JSON array with one object
//! per entry and every field always present, one per line, written here
//! character by character so the whole text is pinned by the specification.
use vstd::prelude::*;

use crate::models::{EntryV, ServiceEntry, ServiceProtocol, ServiceSource, ServiceStatus};
use crate::text::{dec_i64_of, dec_of, push_dec_i64, push_dec_u64, push_str_chars};

verus! {

pub open spec fn hex_digit(d: nat) -> char {
    if d < 10 {
        crate::text::digit_char(d)
    } else if d == 10 {
        'a'
    } else if d == 11 {
        'b'
    } else if d == 12 {
        'c'
    } else if d == 13 {
        'd'
    } else if d == 14 {
        'e'
    } else {
        'f'
    }
}

/// How one character appears inside a JSON string: quotes and backslashes
/// are escaped, the common control characters use their short escapes, any
/// other control character a `\u00..` escape, and everything else stands as
/// itself.
pub open spec fn esc_char(c: char) -> Seq<char> {
    if c == '"' {
        seq!['\\', '"']
    } else if c == '\\' {
        seq!['\\', '\\']
    } else if c == '\n' {
        seq!['\\', 'n']
    } else if c == '\r' {
        seq!['\\', 'r']
    } else if c == '\t' {
        seq!['\\', 't']
    } else if (c as u32) < 32 {
        seq!['\\', 'u', '0', '0', hex_digit(((c as u32) / 16) as nat), hex_digit(
            ((c as u32) % 16) as nat,
        )]
    } else {
        seq![c]
    }
}

pub open spec fn enc_str_body(s: Seq<char>) -> Seq<char>
    decreases s.len(),
{
    if s.len() == 0 {
        Seq::empty()
    } else {
        esc_char(s[0]) + enc_str_body(s.drop_first())
    }
}

/// A JSON string: the escaped body between quotes.
pub open spec fn enc_string(s: Seq<char>) -> Seq<char> {
    seq!['"'] + enc_str_body(s) + seq!['"']
}

pub open spec fn enc_opt_string(o: Option<Seq<char>>) -> Seq<char> {
    match o {
        Option::None => "null"@,
        Option::Some(s) => enc_string(s),
    }
}

pub open spec fn enc_bool(b: bool) -> Seq<char> {
    if b {
        "true"@
    } else {
        "false"@
    }
}

pub open spec fn enc_opt_u16(o: Option<u16>) -> Seq<char> {
    match o {
        Option::None => "null"@,
        Option::Some(p) => dec_of(p as nat),
    }
}

pub open spec fn enc_opt_i64(o: Option<i64>) -> Seq<char> {
    match o {
        Option::None => "null"@,
        Option::Some(t) => dec_i64_of(t as int),
    }
}

pub open spec fn protocol_word(p: ServiceProtocol) -> Seq<char> {
    match p {
        ServiceProtocol::Http => "http"@,
        ServiceProtocol::Https => "https"@,
        ServiceProtocol::Tcp => "tcp"@,
        ServiceProtocol::Other => "other"@,
    }
}

pub open spec fn status_word(s: ServiceStatus) -> Seq<char> {
    match s {
        ServiceStatus::Running => "running"@,
        ServiceStatus::Stopped => "stopped"@,
        ServiceStatus::Unknown => "unknown"@,
    }
}

pub open spec fn source_word(s: ServiceSource) -> Seq<char> {
    match s {
        ServiceSource::Auto => "auto"@,
        ServiceSource::Manual => "manual"@,
        ServiceSource::Merged => "merged"@,
    }
}

pub open spec fn enc_string_items(ts: Seq<Seq<char>>) -> Seq<char>
    decreases ts.len(),
{
    if ts.len() == 0 {
        Seq::empty()
    } else if ts.len() == 1 {
        enc_string(ts[0])
    } else {
        enc_string_items(ts.drop_last()) + seq![','] + enc_string(ts.last())
    }
}

/// A JSON array of strings.
pub open spec fn enc_strings(ts: Seq<Seq<char>>) -> Seq<char> {
    seq!['['] + enc_string_items(ts) + seq![']']
}

/// The identity and endpoint half of an encoded entry.
pub open spec fn enc_entry_head(e: EntryV) -> Seq<char> {
    "{\n    \"id\": "@ + enc_string(e.id) + ",\n    \"service_name\": "@ + enc_string(e.service_name)
        + ",\n    \"display_name\": "@ + enc_string(e.display_name) + ",\n    \"description\": "@
        + enc_opt_string(e.description) + ",\n    \"host\": "@ + enc_string(e.host) + ",\n    \"port\": "@
        + enc_opt_u16(e.port) + ",\n    \"protocol\": "@ + enc_string(protocol_word(e.protocol))
        + ",\n    \"path\": "@ + enc_opt_string(e.path) + ",\n    \"url\": "@ + enc_opt_string(e.url)
        + ",\n    \"status\": "@ + enc_string(status_word(e.status))
}

/// The grouping and bookkeeping half of an encoded entry.
pub open spec fn enc_entry_tail(e: EntryV) -> Seq<char> {
    ",\n    \"group\": "@ + enc_opt_string(e.group) + ",\n    \"tags\": "@ + enc_strings(e.tags)
        + ",\n    \"icon\": "@ + enc_opt_string(e.icon) + ",\n    \"hidden\": "@ + enc_bool(e.hidden)
        + ",\n    \"favorite\": "@ + enc_bool(e.favorite) + ",\n    \"source\": "@ + enc_string(
        source_word(e.source),
    ) + ",\n    \"locked_fields\": "@ + enc_strings(e.locked_fields) + ",\n    \"last_seen_at\": "@
        + enc_opt_i64(e.last_seen_at) + ",\n    \"updated_at\": "@ + dec_i64_of(e.updated_at as int)
        + "\n  }"@
}

/// One entry as a JSON object, every field present in a fixed order.
pub open spec fn enc_entry(e: EntryV) -> Seq<char> {
    enc_entry_head(e) + enc_entry_tail(e)
}

pub open spec fn enc_entry_items(es: Seq<EntryV>) -> Seq<char>
    decreases es.len(),
{
    if es.len() == 0 {
        Seq::empty()
    } else if es.len() == 1 {
        enc_entry(es[0])
    } else {
        enc_entry_items(es.drop_last()) + ",\n  "@ + enc_entry(es.last())
    }
}

/// The whole catalog, pretty-printed: a JSON array with one entry object
/// per block and one field per line; empty catalogs are the bare `[]`.
pub open spec fn enc_catalog(es: Seq<EntryV>) -> Seq<char> {
    if es.len() == 0 {
        "[]"@
    } else {
        "[\n  "@ + enc_entry_items(es) + "\n]"@
    }
}

fn hex_digit_char(d: u32) -> (c: char)
    requires
        d < 16,
    ensures
        c == hex_digit(d as nat),
{
    if d == 0 {
        '0'
    } else if d == 1 {
        '1'
    } else if d == 2 {
        '2'
    } else if d == 3 {
        '3'
    } else if d == 4 {
        '4'
    } else if d == 5 {
        '5'
    } else if d == 6 {
        '6'
    } else if d == 7 {
        '7'
    } else if d == 8 {
        '8'
    } else if d == 9 {
        '9'
    } else if d == 10 {
        'a'
    } else if d == 11 {
        'b'
    } else if d == 12 {
        'c'
    } else if d == 13 {
        'd'
    } else if d == 14 {
        'e'
    } else {
        'f'
    }
}

fn push_escaped(out: &mut Vec<char>, s: &str)
    ensures
        final(out)@ == old(out)@ + enc_str_body(s@),
{
    let v = crate::text::str_to_chars(s);
    let n = v.len();
    let mut i: usize = 0;
    proof {
        assert(v@.skip(0) =~= v@);
        assert(old(out)@ + Seq::<char>::empty() =~= old(out)@);
    }
    while i < n
        invariant
            i <= n,
            n == v@.len(),
            v@ == s@,
            old(out)@ + enc_str_body(s@) == out@ + enc_str_body(v@.skip(i as int)),
        decreases n - i,
    {
        let c = v[i];
        let ghost out0 = out@;
        proof {
            assert(v@.skip(i as int)[0] == v@[i as int]);
            assert(v@.skip(i as int).drop_first() =~= v@.skip(i + 1));
            assert(enc_str_body(v@.skip(i as int)) == esc_char(c) + enc_str_body(v@.skip(i + 1)));
        }
        let u = c as u32;
        if c == '"' {
            out.push('\\');
            out.push('"');
        } else if c == '\\' {
            out.push('\\');
            out.push('\\');
        } else if c == '\n' {
            out.push('\\');
            out.push('n');
        } else if c == '\r' {
            out.push('\\');
            out.push('r');
        } else if c == '\t' {
            out.push('\\');
            out.push('t');
        } else if u < 32 {
            out.push('\\');
            out.push('u');
            out.push('0');
            out.push('0');
            out.push(hex_digit_char(u / 16));
            out.push(hex_digit_char(u % 16));
        } else {
            out.push(c);
        }
        proof {
            assert(out@ =~= out0 + esc_char(c));
            assert(out0 + (esc_char(c) + enc_str_body(v@.skip(i + 1))) =~= out@ + enc_str_body(
                v@.skip(i + 1),
            ));
        }
        i = i + 1;
    }
    proof {
        assert(v@.skip(n as int) =~= Seq::<char>::empty());
        assert(out@ + Seq::<char>::empty() =~= out@);
    }
}

fn push_json_string(out: &mut Vec<char>, s: &str)
    ensures
        final(out)@ == old(out)@ + enc_string(s@),
{
    out.push('"');
    push_escaped(out, s);
    out.push('"');
    proof {
        assert(out@ =~= old(out)@ + enc_string(s@));
    }
}

fn push_opt_string(out: &mut Vec<char>, o: &Option<String>)
    ensures
        final(out)@ == old(out)@ + enc_opt_string(o.deep_view()),
{
    match o {
        Option::None => {
            push_str_chars(out, "null");
        },
        Option::Some(s) => {
            push_json_string(out, s.as_str());
        },
    }
}

fn push_opt_u16(out: &mut Vec<char>, o: Option<u16>)
    ensures
        final(out)@ == old(out)@ + enc_opt_u16(o),
{
    match o {
        Option::None => {
            push_str_chars(out, "null");
        },
        Option::Some(p) => {
            push_dec_u64(out, p as u64);
        },
    }
}

fn push_opt_i64(out: &mut Vec<char>, o: Option<i64>)
    ensures
        final(out)@ == old(out)@ + enc_opt_i64(o),
{
    match o {
        Option::None => {
            push_str_chars(out, "null");
        },
        Option::Some(t) => {
            push_dec_i64(out, t);
        },
    }
}

fn push_bool(out: &mut Vec<char>, b: bool)
    ensures
        final(out)@ == old(out)@ + enc_bool(b),
{
    if b {
        push_str_chars(out, "true");
    } else {
        push_str_chars(out, "false");
    }
}

fn push_strings(out: &mut Vec<char>, ts: &Vec<String>)
    ensures
        final(out)@ == old(out)@ + enc_strings(ts.deep_view()),
{
    let ghost tdv = ts.deep_view();
    out.push('[');
    let ghost start = out@;
    let mut i: usize = 0;
    proof {
        assert(tdv.take(0) =~~= Seq::<Seq<char>>::empty());
        assert(start + Seq::<char>::empty() =~= start);
    }
    while i < ts.len()
        invariant
            i <= ts@.len(),
            tdv == ts.deep_view(),
            out@ == start + enc_string_items(tdv.take(i as int)),
        decreases ts@.len() - i,
    {
        let ghost q = tdv.take(i + 1);
        let ghost out0 = out@;
        proof {
            assert(q.drop_last() =~~= tdv.take(i as int));
            assert(q.last() == tdv[i as int]);
            assert(tdv[i as int] == ts@[i as int]@);
        }
        if i > 0 {
            out.push(',');
        }
        push_json_string(out, ts[i].as_str());
        proof {
            if i == 0 {
                assert(q.len() == 1);
                assert(q[0] == tdv[i as int]);
                assert(enc_string_items(q) == enc_string(tdv[i as int]));
                assert(enc_string_items(tdv.take(0)) == Seq::<char>::empty());
                assert(out@ =~= start + enc_string_items(q));
            } else {
                assert(enc_string_items(q) == enc_string_items(tdv.take(i as int)) + seq![',']
                    + enc_string(tdv[i as int]));
                assert(out@ =~= start + enc_string_items(q));
            }
        }
        i = i + 1;
    }
    out.push(']');
    proof {
        assert(tdv.take(ts@.len() as int) =~~= tdv);
        assert(out@ =~= old(out)@ + enc_strings(tdv));
    }
}

fn protocol_text(p: &ServiceProtocol) -> (r: &'static str)
    ensures
        r@ == protocol_word(*p),
{
    match p {
        ServiceProtocol::Http => "http",
        ServiceProtocol::Https => "https",
        ServiceProtocol::Tcp => "tcp",
        ServiceProtocol::Other => "other",
    }
}

fn status_text(s: &ServiceStatus) -> (r: &'static str)
    ensures
        r@ == status_word(*s),
{
    match s {
        ServiceStatus::Running => "running",
        ServiceStatus::Stopped => "stopped",
        ServiceStatus::Unknown => "unknown",
    }
}

fn source_text(s: &ServiceSource) -> (r: &'static str)
    ensures
        r@ == source_word(*s),
{
    match s {
        ServiceSource::Auto => "auto",
        ServiceSource::Manual => "manual",
        ServiceSource::Merged => "merged",
    }
}

#[verifier::rlimit(100)]
fn push_entry_head(out: &mut Vec<char>, e: &ServiceEntry)
    ensures
        final(out)@ == old(out)@ + enc_entry_head(e.deep_view()),
{
    push_str_chars(out, "{\n    \"id\": ");
    push_json_string(out, e.id.as_str());
    push_str_chars(out, ",\n    \"service_name\": ");
    push_json_string(out, e.service_name.as_str());
    push_str_chars(out, ",\n    \"display_name\": ");
    push_json_string(out, e.display_name.as_str());
    push_str_chars(out, ",\n    \"description\": ");
    push_opt_string(out, &e.description);
    push_str_chars(out, ",\n    \"host\": ");
    push_json_string(out, e.host.as_str());
    push_str_chars(out, ",\n    \"port\": ");
    push_opt_u16(out, e.port);
    push_str_chars(out, ",\n    \"protocol\": ");
    push_json_string(out, protocol_text(&e.protocol));
    push_str_chars(out, ",\n    \"path\": ");
    push_opt_string(out, &e.path);
    push_str_chars(out, ",\n    \"url\": ");
    push_opt_string(out, &e.url);
    push_str_chars(out, ",\n    \"status\": ");
    push_json_string(out, status_text(&e.status));
    proof {
        assert(out@ =~= old(out)@ + enc_entry_head(e.deep_view()));
    }
}

#[verifier::rlimit(100)]
fn push_entry_tail(out: &mut Vec<char>, e: &ServiceEntry)
    ensures
        final(out)@ == old(out)@ + enc_entry_tail(e.deep_view()),
{
    push_str_chars(out, ",\n    \"group\": ");
    push_opt_string(out, &e.group);
    push_str_chars(out, ",\n    \"tags\": ");
    push_strings(out, &e.tags);
    push_str_chars(out, ",\n    \"icon\": ");
    push_opt_string(out, &e.icon);
    push_str_chars(out, ",\n    \"hidden\": ");
    push_bool(out, e.hidden);
    push_str_chars(out, ",\n    \"favorite\": ");
    push_bool(out, e.favorite);
    push_str_chars(out, ",\n    \"source\": ");
    push_json_string(out, source_text(&e.source));
    push_str_chars(out, ",\n    \"locked_fields\": ");
    push_strings(out, &e.locked_fields);
    push_str_chars(out, ",\n    \"last_seen_at\": ");
    push_opt_i64(out, e.last_seen_at);
    push_str_chars(out, ",\n    \"updated_at\": ");
    push_dec_i64(out, e.updated_at);
    push_str_chars(out, "\n  }");
    proof {
        assert(out@ =~= old(out)@ + enc_entry_tail(e.deep_view()));
    }
}

fn push_entry(out: &mut Vec<char>, e: &ServiceEntry)
    ensures
        final(out)@ == old(out)@ + enc_entry(e.deep_view()),
{
    push_entry_head(out, e);
    push_entry_tail(out, e);
    proof {
        assert(out@ =~= old(out)@ + enc_entry(e.deep_view()));
    }
}

/// Renders the catalog as the JSON array the store persists.
#[verifier::rlimit(100)]
pub fn catalog_to_json(services: &Vec<ServiceEntry>) -> (r: String)
    ensures
        r@ == enc_catalog(services.deep_view()),
{
    let ghost sdv = services.deep_view();
    let mut out: Vec<char> = Vec::new();
    if services.len() == 0 {
        push_str_chars(&mut out, "[]");
        proof {
            assert(out@ =~= enc_catalog(sdv));
        }
        return crate::text::chars_to_string(&out);
    }
    push_str_chars(&mut out, "[\n  ");
    let ghost start = out@;
    let mut i: usize = 0;
    proof {
        assert(sdv.take(0) =~~= Seq::<EntryV>::empty());
        assert(start + Seq::<char>::empty() =~= start);
    }
    while i < services.len()
        invariant
            i <= services@.len(),
            sdv == services.deep_view(),
            out@ == start + enc_entry_items(sdv.take(i as int)),
        decreases services@.len() - i,
    {
        let ghost q = sdv.take(i + 1);
        proof {
            assert(q.drop_last() =~~= sdv.take(i as int));
            assert(q.last() == sdv[i as int]);
        }
        if i > 0 {
            push_str_chars(&mut out, ",\n  ");
        }
        push_entry(&mut out, &services[i]);
        proof {
            if i == 0 {
                assert(q.len() == 1);
                assert(q[0] == sdv[i as int]);
                assert(enc_entry_items(q) == enc_entry(sdv[i as int]));
                assert(enc_entry_items(sdv.take(0)) == Seq::<char>::empty());
                assert(out@ =~= start + enc_entry_items(q));
            } else {
                assert(enc_entry_items(q) == enc_entry_items(sdv.take(i as int)) + ",\n  "@
                    + enc_entry(sdv[i as int]));
                assert(out@ =~= start + enc_entry_items(q));
            }
        }
        i = i + 1;
    }
    push_str_chars(&mut out, "\n]");
    proof {
        assert(sdv.take(services@.len() as int) =~~= sdv);
        assert(out@ =~= "[\n  "@ + enc_entry_items(sdv) + "\n]"@);
    }
    crate::text::chars_to_string(&out)
}

} // verus!
