//! The catalog's data model: service entries, requests, queries and the
//! discovery summary, together with their mathematical views.
use vstd::prelude::*;

use crate::text::{
    dec_of, dedup_adjacent, eq_str, insert_ordered_by, lex_le, lower_of, sort_ordered_by,
    trim_of, upper_of,
};

verus! {

/// Transport protocol of a tracked service.
#[derive(Clone, Copy, Debug, PartialEq, Eq, Structural)]
pub enum ServiceProtocol {
    Http,
    Https,
    Tcp,
    Other,
}

impl Default for ServiceProtocol {
    /// The variant used when nothing is known about the transport.
    fn default() -> (r: Self)
        ensures
            r == ServiceProtocol::Other,
    {
        ServiceProtocol::Other
    }
}

/// Run state of a tracked service.
#[derive(Clone, Copy, Debug, PartialEq, Eq, Structural)]
pub enum ServiceStatus {
    Running,
    Stopped,
    Unknown,
}

impl Default for ServiceStatus {
    /// The variant used when nothing is known about the run state.
    fn default() -> (r: Self)
        ensures
            r == ServiceStatus::Unknown,
    {
        ServiceStatus::Unknown
    }
}

/// Where an entry came from.
#[derive(Clone, Copy, Debug, PartialEq, Eq, Structural)]
pub enum ServiceSource {
    Auto,
    Manual,
    Merged,
}

impl Default for ServiceSource {
    /// The variant used when nothing is known about the provenance.
    fn default() -> (r: Self)
        ensures
            r == ServiceSource::Merged,
    {
        ServiceSource::Merged
    }
}

/// One tracked service. Timestamps are milliseconds since the Unix epoch.
#[derive(Debug, PartialEq, Eq)]
pub struct ServiceEntry {
    pub id: String,
    pub service_name: String,
    pub display_name: String,
    pub description: Option<String>,
    pub host: String,
    pub port: Option<u16>,
    pub protocol: ServiceProtocol,
    pub path: Option<String>,
    pub url: Option<String>,
    pub status: ServiceStatus,
    pub group: Option<String>,
    pub tags: Vec<String>,
    pub icon: Option<String>,
    pub hidden: bool,
    pub favorite: bool,
    pub source: ServiceSource,
    pub locked_fields: Vec<String>,
    pub last_seen_at: Option<i64>,
    pub updated_at: i64,
}

/// The mathematical value of a `ServiceEntry`: every string as its character
/// sequence.
#[verifier::ext_equal]
pub struct EntryV {
    pub id: Seq<char>,
    pub service_name: Seq<char>,
    pub display_name: Seq<char>,
    pub description: Option<Seq<char>>,
    pub host: Seq<char>,
    pub port: Option<u16>,
    pub protocol: ServiceProtocol,
    pub path: Option<Seq<char>>,
    pub url: Option<Seq<char>>,
    pub status: ServiceStatus,
    pub group: Option<Seq<char>>,
    pub tags: Seq<Seq<char>>,
    pub icon: Option<Seq<char>>,
    pub hidden: bool,
    pub favorite: bool,
    pub source: ServiceSource,
    pub locked_fields: Seq<Seq<char>>,
    pub last_seen_at: Option<i64>,
    pub updated_at: i64,
}

impl DeepView for ServiceEntry {
    type V = EntryV;

    open spec fn deep_view(&self) -> EntryV {
        EntryV {
            id: self.id@,
            service_name: self.service_name@,
            display_name: self.display_name@,
            description: self.description.deep_view(),
            host: self.host@,
            port: self.port,
            protocol: self.protocol,
            path: self.path.deep_view(),
            url: self.url.deep_view(),
            status: self.status,
            group: self.group.deep_view(),
            tags: self.tags.deep_view(),
            icon: self.icon.deep_view(),
            hidden: self.hidden,
            favorite: self.favorite,
            source: self.source,
            locked_fields: self.locked_fields.deep_view(),
            last_seen_at: self.last_seen_at,
            updated_at: self.updated_at,
        }
    }
}

/// Copies an optional string, preserving its value.
pub fn clone_opt_string(v: &Option<String>) -> (r: Option<String>)
    ensures
        r.deep_view() == v.deep_view(),
{
    match v {
        Option::None => Option::None,
        Option::Some(s) => Option::Some(s.clone()),
    }
}

/// Copies a vector of strings, preserving its value.
pub fn clone_string_vec(v: &Vec<String>) -> (r: Vec<String>)
    ensures
        r.deep_view() == v.deep_view(),
{
    let mut r: Vec<String> = Vec::new();
    let mut i: usize = 0;
    while i < v.len()
        invariant
            i <= v.len(),
            r.deep_view() == v.deep_view().take(i as int),
        decreases v.len() - i,
    {
        let ghost prev = r.deep_view();
        let c = v[i].clone();
        proof {
            assert(c@ == v.deep_view()[i as int]);
        }
        r.push(c);
        proof {
            assert(r.deep_view() =~= prev.push(c@));
        }
        i = i + 1;
        proof {
            assert(r.deep_view() =~= v.deep_view().take(i as int));
        }
    }
    proof {
        assert(v.deep_view().take(v@.len() as int) =~= v.deep_view());
    }
    r
}

impl Clone for ServiceEntry {
    /// A copy with the same mathematical value.
    fn clone(&self) -> (r: Self)
        ensures
            r.deep_view() == self.deep_view(),
    {
        let r = ServiceEntry {
            id: self.id.clone(),
            service_name: self.service_name.clone(),
            display_name: self.display_name.clone(),
            description: clone_opt_string(&self.description),
            host: self.host.clone(),
            port: self.port,
            protocol: self.protocol,
            path: clone_opt_string(&self.path),
            url: clone_opt_string(&self.url),
            status: self.status,
            group: clone_opt_string(&self.group),
            tags: clone_string_vec(&self.tags),
            icon: clone_opt_string(&self.icon),
            hidden: self.hidden,
            favorite: self.favorite,
            source: self.source,
            locked_fields: clone_string_vec(&self.locked_fields),
            last_seen_at: self.last_seen_at,
            updated_at: self.updated_at,
        };
        proof {
            assert(r.deep_view() =~= self.deep_view());
        }
        r
    }
}

/// Equality of optional strings at the level of their values.
pub fn opt_str_eq(a: &Option<String>, b: &Option<String>) -> (r: bool)
    ensures
        r == (a.deep_view() == b.deep_view()),
{
    match (a, b) {
        (Option::None, Option::None) => true,
        (Option::Some(x), Option::Some(y)) => eq_str(x.as_str(), y.as_str()),
        _ => false,
    }
}

/// Equality of string vectors at the level of their values.
pub fn string_vec_eq(a: &Vec<String>, b: &Vec<String>) -> (r: bool)
    ensures
        r == (a.deep_view() == b.deep_view()),
{
    if a.len() != b.len() {
        proof {
            assert(a.deep_view().len() == a@.len());
            assert(b.deep_view().len() == b@.len());
        }
        return false;
    }
    let mut i: usize = 0;
    while i < a.len()
        invariant
            i <= a.len(),
            a@.len() == b@.len(),
            forall|j: int| 0 <= j < i ==> a.deep_view()[j] == b.deep_view()[j],
        decreases a.len() - i,
    {
        if !eq_str(a[i].as_str(), b[i].as_str()) {
            proof {
                assert(a.deep_view()[i as int] == a@[i as int]@);
                assert(b.deep_view()[i as int] == b@[i as int]@);
                assert(a.deep_view()[i as int] != b.deep_view()[i as int]);
            }
            return false;
        }
        i = i + 1;
    }
    proof {
        assert(a.deep_view() =~= b.deep_view());
    }
    true
}

pub(crate) fn opt_u16_eq(a: &Option<u16>, b: &Option<u16>) -> (r: bool)
    ensures
        r == (a == b),
{
    match (a, b) {
        (Option::None, Option::None) => true,
        (Option::Some(x), Option::Some(y)) => *x == *y,
        _ => false,
    }
}

fn opt_i64_eq(a: &Option<i64>, b: &Option<i64>) -> (r: bool)
    ensures
        r == (a == b),
{
    match (a, b) {
        (Option::None, Option::None) => true,
        (Option::Some(x), Option::Some(y)) => *x == *y,
        _ => false,
    }
}

/// Equality of two entries at the level of their mathematical values.
pub fn entry_eq(a: &ServiceEntry, b: &ServiceEntry) -> (r: bool)
    ensures
        r == (a.deep_view() == b.deep_view()),
{
    let r = eq_str(a.id.as_str(), b.id.as_str()) && eq_str(
        a.service_name.as_str(),
        b.service_name.as_str(),
    ) && eq_str(a.display_name.as_str(), b.display_name.as_str()) && opt_str_eq(
        &a.description,
        &b.description,
    ) && eq_str(a.host.as_str(), b.host.as_str()) && opt_u16_eq(&a.port, &b.port) && a.protocol
        == b.protocol && opt_str_eq(&a.path, &b.path) && opt_str_eq(&a.url, &b.url) && a.status
        == b.status && opt_str_eq(&a.group, &b.group) && string_vec_eq(&a.tags, &b.tags)
        && opt_str_eq(&a.icon, &b.icon) && a.hidden == b.hidden && a.favorite == b.favorite
        && a.source == b.source && string_vec_eq(&a.locked_fields, &b.locked_fields) && opt_i64_eq(
        &a.last_seen_at,
        &b.last_seen_at,
    ) && a.updated_at == b.updated_at;
    proof {
        if r {
            assert(a.deep_view() =~= b.deep_view());
        }
    }
    r
}

impl ServiceEntry {
    /// Whether automatic merges must not overwrite `field`.
    pub fn is_locked(&self, field: &str) -> (r: bool)
        ensures
            r == self.deep_view().locked_fields.contains(field@),
    {
        let mut i: usize = 0;
        while i < self.locked_fields.len()
            invariant
                i <= self.locked_fields@.len(),
                forall|j: int| 0 <= j < i ==> self.deep_view().locked_fields[j] != field@,
            decreases self.locked_fields@.len() - i,
        {
            if eq_str(self.locked_fields[i].as_str(), field) {
                proof {
                    assert(self.deep_view().locked_fields[i as int] == field@);
                }
                return true;
            }
            i = i + 1;
        }
        proof {
            assert(!self.deep_view().locked_fields.contains(field@));
        }
        false
    }

    /// Protects `field` from automatic overwrites, appending it to the locked
    /// list if it is not there yet. No other field changes.
    pub fn lock_field(&mut self, field: &str)
        ensures
            final(self).deep_view() == (EntryV {
                locked_fields: if old(self).deep_view().locked_fields.contains(field@) {
                    old(self).deep_view().locked_fields
                } else {
                    old(self).deep_view().locked_fields.push(field@)
                },
                ..old(self).deep_view()
            }),
    {
        if !self.is_locked(field) {
            self.locked_fields.push(field.to_owned());
            proof {
                assert(self.deep_view().locked_fields =~= old(
                    self,
                ).deep_view().locked_fields.push(field@));
                assert(self.deep_view() =~= (EntryV {
                    locked_fields: old(self).deep_view().locked_fields.push(field@),
                    ..old(self).deep_view()
                }));
            }
        } else {
            proof {
                assert(self.deep_view() =~= (EntryV {
                    locked_fields: old(self).deep_view().locked_fields,
                    ..old(self).deep_view()
                }));
            }
        }
    }
}

/// ASCII letters and digits: the characters a slug keeps.
pub open spec fn is_ascii_alnum(c: char) -> bool {
    let u = c as u32;
    (48 <= u && u <= 57) || (65 <= u && u <= 90) || (97 <= u && u <= 122)
}

fn is_ascii_alnum_char(c: char) -> (r: bool)
    ensures
        r == is_ascii_alnum(c),
{
    let u = c as u32;
    (48 <= u && u <= 57) || (65 <= u && u <= 90) || (97 <= u && u <= 122)
}

/// Slug accumulation: alphanumerics are kept, every other run of characters
/// collapses to a single hyphen. `pd` records whether a hyphen was just
/// written.
pub open spec fn slug_acc(s: Seq<char>, pd: bool) -> Seq<char>
    decreases s.len(),
{
    if s.len() == 0 {
        Seq::empty()
    } else if is_ascii_alnum(s[0]) {
        seq![s[0]] + slug_acc(s.drop_first(), false)
    } else if !pd {
        seq!['-'] + slug_acc(s.drop_first(), true)
    } else {
        slug_acc(s.drop_first(), true)
    }
}

pub open spec fn trim_dash_start(s: Seq<char>) -> Seq<char>
    decreases s.len(),
{
    if s.len() > 0 && s[0] == '-' {
        trim_dash_start(s.drop_first())
    } else {
        s
    }
}

pub open spec fn trim_dash_end(s: Seq<char>) -> Seq<char>
    decreases s.len(),
{
    if s.len() > 0 && s.last() == '-' {
        trim_dash_end(s.drop_last())
    } else {
        s
    }
}

/// The slug of an already-lowercased name: collapse, then trim hyphens.
pub open spec fn slug_of(s: Seq<char>) -> Seq<char> {
    trim_dash_end(trim_dash_start(slug_acc(s, false)))
}

/// The stable identifier derived from a service name: lowercase it, collapse
/// every non-alphanumeric run to one hyphen, and trim outer hyphens.
pub open spec fn spec_service_id(s: Seq<char>) -> Seq<char> {
    slug_of(lower_of(s))
}

proof fn lemma_trim_dash_start_skip(s: Seq<char>, k: int)
    requires
        0 <= k <= s.len(),
        forall|i: int| 0 <= i < k ==> s[i] == '-',
        k == s.len() || s[k] != '-',
    ensures
        trim_dash_start(s) == s.skip(k),
    decreases k,
{
    if k == 0 {
        assert(s.skip(0) =~= s);
    } else {
        assert(s[0] == '-');
        lemma_trim_dash_start_skip(s.drop_first(), k - 1);
        assert(s.drop_first().skip(k - 1) =~= s.skip(k));
    }
}

proof fn lemma_trim_dash_end_take(s: Seq<char>, k: int)
    requires
        0 <= k <= s.len(),
        forall|i: int| k <= i < s.len() ==> s[i] == '-',
        k == 0 || s[k - 1] != '-',
    ensures
        trim_dash_end(s) == s.take(k),
    decreases s.len() - k,
{
    if k == s.len() {
        if s.len() > 0 && s.last() == '-' {
            assert(false);
        }
        assert(s.take(k) =~= s);
    } else {
        assert(s.last() == '-');
        lemma_trim_dash_end_take(s.drop_last(), k);
        assert(s.drop_last().take(k) =~= s.take(k));
    }
}

/// Strips leading and trailing hyphens.
fn trim_dashes_chars(v: &Vec<char>) -> (r: Vec<char>)
    ensures
        r@ == trim_dash_end(trim_dash_start(v@)),
{
    let n = v.len();
    let mut a: usize = 0;
    while a < n && v[a] == '-'
        invariant
            a <= n,
            n == v.len(),
            forall|i: int| 0 <= i < a ==> v@[i] == '-',
        decreases n - a,
    {
        a = a + 1;
    }
    proof {
        lemma_trim_dash_start_skip(v@, a as int);
    }
    let mut b: usize = n;
    while b > a && v[b - 1] == '-'
        invariant
            a <= b <= n,
            n == v.len(),
            forall|i: int| b <= i < n ==> v@[i] == '-',
        decreases b,
    {
        b = b - 1;
    }
    proof {
        let t = v@.skip(a as int);
        assert(forall|i: int| b - a <= i < t.len() ==> t[i] == '-');
        if b > a {
            assert(t[b - a - 1] != '-');
        }
        lemma_trim_dash_end_take(t, b - a);
        assert(t.take(b - a) =~= v@.subrange(a as int, b as int));
    }
    let mut r: Vec<char> = Vec::new();
    let mut i: usize = a;
    while i < b
        invariant
            a <= i <= b <= n,
            n == v.len(),
            r@ == v@.subrange(a as int, i as int),
        decreases b - i,
    {
        r.push(v[i]);
        i = i + 1;
        proof {
            assert(r@ =~= v@.subrange(a as int, i as int));
        }
    }
    r
}

/// The stable slug derived from a service name: lowercased, with every run of
/// non-alphanumeric characters collapsed to one hyphen and outer hyphens
/// trimmed.
pub fn service_id(service_name: &str) -> (r: String)
    ensures
        r@ == spec_service_id(service_name@),
{
    let lowered = crate::text::lower(service_name);
    let chars = crate::text::str_to_chars(lowered.as_str());
    let ghost l = chars@;
    let n = chars.len();
    let mut out: Vec<char> = Vec::new();
    let mut pd: bool = false;
    let mut i: usize = 0;
    proof {
        assert(l.skip(0) =~= l);
        assert(Seq::<char>::empty() + slug_acc(l, false) =~= slug_acc(l, false));
    }
    while i < n
        invariant
            i <= n,
            n == l.len(),
            l == chars@,
            slug_acc(l, false) == out@ + slug_acc(l.skip(i as int), pd),
        decreases n - i,
    {
        let c = chars[i];
        let ghost out0 = out@;
        proof {
            assert(l.skip(i as int)[0] == l[i as int]);
            assert(l.skip(i as int).drop_first() =~= l.skip(i + 1));
        }
        if is_ascii_alnum_char(c) {
            out.push(c);
            proof {
                assert(slug_acc(l.skip(i as int), pd) == seq![c] + slug_acc(l.skip(i + 1), false));
                assert(out0 + slug_acc(l.skip(i as int), pd) =~= out@ + slug_acc(
                    l.skip(i + 1),
                    false,
                ));
            }
            pd = false;
        } else if !pd {
            out.push('-');
            proof {
                assert(slug_acc(l.skip(i as int), pd) == seq!['-'] + slug_acc(l.skip(i + 1), true));
                assert(out0 + slug_acc(l.skip(i as int), pd) =~= out@ + slug_acc(
                    l.skip(i + 1),
                    true,
                ));
            }
            pd = true;
        } else {
            proof {
                assert(slug_acc(l.skip(i as int), true) == slug_acc(l.skip(i + 1), true));
            }
        }
        i = i + 1;
    }
    proof {
        assert(l.skip(n as int) =~= Seq::<char>::empty());
        assert(out@ =~= slug_acc(l, false));
    }
    let trimmed = trim_dashes_chars(&out);
    crate::text::chars_to_string(&trimmed)
}

/// Word separators of a unit name.
pub open spec fn is_sep(c: char) -> bool {
    c == '-' || c == '_' || c == '.'
}

/// Strips every trailing `.service` suffix, as `str::trim_end_matches` does.
pub open spec fn strip_service_suffix(s: Seq<char>) -> Seq<char>
    decreases s.len(),
{
    if s.len() >= 8 && s.subrange(s.len() - 8, s.len() as int) == ".service"@ {
        strip_service_suffix(s.take(s.len() - 8))
    } else {
        s
    }
}

/// The segments of `s` between separators, empties included.
pub open spec fn segs_acc(s: Seq<char>, cur: Seq<char>) -> Seq<Seq<char>>
    decreases s.len(),
{
    if s.len() == 0 {
        seq![cur]
    } else if is_sep(s[0]) {
        seq![cur] + segs_acc(s.drop_first(), Seq::empty())
    } else {
        segs_acc(s.drop_first(), cur.push(s[0]))
    }
}

/// Drops empty words.
pub open spec fn keep_nonempty(ws: Seq<Seq<char>>) -> Seq<Seq<char>>
    decreases ws.len(),
{
    if ws.len() == 0 {
        Seq::empty()
    } else {
        let r = keep_nonempty(ws.drop_last());
        if ws.last().len() > 0 {
            r.push(ws.last())
        } else {
            r
        }
    }
}

/// A word with its first character uppercased.
pub open spec fn cap_word(w: Seq<char>) -> Seq<char> {
    if w.len() == 0 {
        w
    } else {
        upper_of(w.take(1)) + w.skip(1)
    }
}

pub open spec fn cap_words(ws: Seq<Seq<char>>) -> Seq<Seq<char>>
    decreases ws.len(),
{
    if ws.len() == 0 {
        Seq::empty()
    } else {
        cap_words(ws.drop_last()).push(cap_word(ws.last()))
    }
}

/// Words joined with single spaces.
pub open spec fn join_spaces(ws: Seq<Seq<char>>) -> Seq<char>
    decreases ws.len(),
{
    if ws.len() == 0 {
        Seq::empty()
    } else if ws.len() == 1 {
        ws[0]
    } else {
        join_spaces(ws.drop_last()) + seq![' '] + ws.last()
    }
}

proof fn lemma_cap_words_len(ws: Seq<Seq<char>>)
    ensures
        cap_words(ws).len() == ws.len(),
    decreases ws.len(),
{
    if ws.len() > 0 {
        lemma_cap_words_len(ws.drop_last());
    }
}

/// The human-friendly label of a unit name: the `.service` suffix stripped,
/// split on `-`, `_` and `.`, empty parts dropped, each word capitalized, and
/// all joined with spaces.
pub open spec fn humanized_of(s: Seq<char>) -> Seq<char> {
    join_spaces(cap_words(keep_nonempty(segs_acc(strip_service_suffix(s), Seq::empty()))))
}

/// Whether `v` ends with the characters `.service`.
pub(crate) fn ends_with_service(v: &Vec<char>) -> (r: bool)
    ensures
        r == (v@.len() >= 8 && v@.subrange(v@.len() - 8, v@.len() as int) == ".service"@),
{
    let n = v.len();
    if n < 8 {
        return false;
    }
    let suffix = crate::text::str_to_chars(".service");
    proof {
        reveal_strlit(".service");
    }
    let mut i: usize = 0;
    while i < 8
        invariant
            i <= 8,
            n == v@.len(),
            n >= 8,
            suffix@ == ".service"@,
            suffix@.len() == 8,
            forall|j: int| 0 <= j < i ==> v@[n - 8 + j] == suffix@[j],
        decreases 8 - i,
    {
        if v[n - 8 + i] != suffix[i] {
            proof {
                assert(v@.subrange(n - 8, n as int)[i as int] == v@[n - 8 + i]);
            }
            return false;
        }
        i = i + 1;
    }
    proof {
        assert(v@.subrange(n - 8, n as int) =~= suffix@);
    }
    true
}

/// Strips every trailing `.service` suffix.
pub(crate) fn strip_service_suffix_chars(v: Vec<char>) -> (r: Vec<char>)
    ensures
        r@ == strip_service_suffix(v@),
{
    let mut t = v;
    while ends_with_service(&t)
        invariant
            strip_service_suffix(t@) == strip_service_suffix(v@),
        decreases t@.len(),
    {
        let m = t.len() - 8;
        t.truncate(m);
    }
    t
}

/// The human-friendly label of a unit name.
pub fn humanize_service_name(service_name: &str) -> (r: String)
    ensures
        r@ == humanized_of(service_name@),
{
    let chars = crate::text::str_to_chars(service_name);
    let t = strip_service_suffix_chars(chars);
    let ghost ts = t@;
    let n = t.len();
    // split into words
    let mut words: Vec<Vec<char>> = Vec::new();
    let mut cur: Vec<char> = Vec::new();
    let ghost full = segs_acc(ts, Seq::<char>::empty());
    let mut i: usize = 0;
    proof {
        assert(ts.skip(0) =~= ts);
        assert(words.deep_view() =~= Seq::<Seq<char>>::empty());
        assert(Seq::<Seq<char>>::empty() + segs_acc(ts, cur@) =~= segs_acc(ts, cur@));
    }
    while i < n
        invariant
            i <= n,
            n == ts.len(),
            ts == t@,
            full == words.deep_view() + segs_acc(ts.skip(i as int), cur@),
        decreases n - i,
    {
        let c = t[i];
        let ghost words0 = words.deep_view();
        let ghost cur0 = cur@;
        proof {
            assert(ts.skip(i as int)[0] == ts[i as int]);
            assert(ts.skip(i as int).drop_first() =~= ts.skip(i + 1));
        }
        if c == '-' || c == '_' || c == '.' {
            words.push(cur);
            cur = Vec::new();
            proof {
                assert(words.deep_view() =~~= words0.push(cur0));
                assert(segs_acc(ts.skip(i as int), cur0) == seq![cur0] + segs_acc(
                    ts.skip(i + 1),
                    Seq::<char>::empty(),
                ));
                assert(words0 + (seq![cur0] + segs_acc(ts.skip(i + 1), Seq::<char>::empty()))
                    =~~= words.deep_view() + segs_acc(ts.skip(i + 1), cur@));
            }
        } else {
            cur.push(c);
            proof {
                assert(segs_acc(ts.skip(i as int), cur0) == segs_acc(ts.skip(i + 1), cur0.push(c)));
            }
        }
        i = i + 1;
    }
    proof {
        assert(ts.skip(n as int) =~= Seq::<char>::empty());
        assert(segs_acc(Seq::<char>::empty(), cur@) == seq![cur@]);
    }
    let ghost words1 = words.deep_view();
    words.push(cur);
    proof {
        assert(words.deep_view() =~~= words1.push(cur@));
        assert(words1 + seq![cur@] =~~= words1.push(cur@));
        assert(words.deep_view() == full);
    }
    // capitalize the non-empty words and join them with spaces
    let ghost ws = words.deep_view();
    let mut out: Vec<char> = Vec::new();
    let mut emitted: bool = false;
    let mut k: usize = 0;
    proof {
        assert(ws.take(0) =~= Seq::<Seq<char>>::empty());
    }
    while k < words.len()
        invariant
            k <= words@.len(),
            ws == words.deep_view(),
            out@ == join_spaces(cap_words(keep_nonempty(ws.take(k as int)))),
            emitted == (keep_nonempty(ws.take(k as int)).len() > 0),
        decreases words@.len() - k,
    {
        let w = &words[k];
        let ghost q = ws.take(k + 1);
        proof {
            assert(q.drop_last() =~~= ws.take(k as int));
            assert(q.last() == ws[k as int]);
            assert(ws[k as int] =~= w@);
        }
        if w.len() > 0 {
            let ghost kept = keep_nonempty(ws.take(k as int));
            let ghost capped = cap_words(kept);
            proof {
                assert(keep_nonempty(q) == kept.push(w@));
                assert(keep_nonempty(q).drop_last() =~~= kept);
                assert(cap_words(keep_nonempty(q)) == capped.push(cap_word(w@)));
                lemma_cap_words_len(kept);
            }
            if emitted {
                out.push(' ');
            }
            let ghost out1 = out@;
            // capitalize: uppercase the first character, keep the rest
            let mut first: Vec<char> = Vec::new();
            first.push(w[0]);
            proof {
                assert(first@ =~= w@.take(1));
            }
            let first_str = crate::text::chars_to_string(&first);
            let up = crate::text::upper(first_str.as_str());
            crate::text::push_str_chars(&mut out, up.as_str());
            let mut j: usize = 1;
            while j < w.len()
                invariant
                    1 <= j <= w@.len(),
                    out@ == out1 + upper_of(w@.take(1)) + w@.subrange(1, j as int),
                decreases w@.len() - j,
            {
                out.push(w[j]);
                j = j + 1;
                proof {
                    assert(out@ =~= out1 + upper_of(w@.take(1)) + w@.subrange(1, j as int));
                }
            }
            proof {
                assert(w@.subrange(1, w@.len() as int) =~= w@.skip(1));
                assert(out@ =~= out1 + cap_word(w@));
                let cq = cap_words(keep_nonempty(q));
                assert(cq.drop_last() =~= capped);
                if capped.len() == 0 {
                    assert(join_spaces(cq) == cq.last());
                    assert(out1 =~= Seq::<char>::empty());
                    assert(out@ =~= join_spaces(cq));
                } else {
                    assert(join_spaces(cq) == join_spaces(capped) + seq![' '] + cap_word(w@));
                    assert(out@ =~= join_spaces(cq));
                }
            }
            emitted = true;
        } else {
            proof {
                assert(keep_nonempty(q) == keep_nonempty(ws.take(k as int)));
            }
        }
        k = k + 1;
    }
    proof {
        assert(ws.take(words@.len() as int) =~= ws);
    }
    crate::text::chars_to_string(&out)
}

/// The protocol inferred from a port: well-known TLS ports give `Https`,
/// well-known web ports give `Http`, any other port `Tcp`, no port `Other`.
pub open spec fn spec_infer_protocol(port: Option<u16>) -> ServiceProtocol {
    match port {
        Option::None => ServiceProtocol::Other,
        Option::Some(p) => if p == 443 || p == 8443 {
            ServiceProtocol::Https
        } else if p == 80 || p == 3000 || p == 5000 || p == 8080 || p == 8096 || p == 9000 {
            ServiceProtocol::Http
        } else {
            ServiceProtocol::Tcp
        },
    }
}

/// Infers the protocol for a newly created entry from its port.
pub fn infer_protocol_from_port(port: Option<u16>) -> (r: ServiceProtocol)
    ensures
        r == spec_infer_protocol(port),
{
    match port {
        Option::None => ServiceProtocol::Other,
        Option::Some(p) => if p == 443 || p == 8443 {
            ServiceProtocol::Https
        } else if p == 80 || p == 3000 || p == 5000 || p == 8080 || p == 8096 || p == 9000 {
            ServiceProtocol::Http
        } else {
            ServiceProtocol::Tcp
        },
    }
}

/// The URL composed from protocol, host, port and path: only for `Http` and
/// `Https` with a known port; the trimmed path is appended with a leading
/// slash supplied when missing.
pub open spec fn spec_build_url(
    protocol: ServiceProtocol,
    host: Seq<char>,
    port: Option<u16>,
    path: Option<Seq<char>>,
) -> Option<Seq<char>> {
    if protocol != ServiceProtocol::Http && protocol != ServiceProtocol::Https {
        Option::None
    } else {
        match port {
            Option::None => Option::None,
            Option::Some(p) => {
                let scheme = if protocol == ServiceProtocol::Http {
                    "http"@
                } else {
                    "https"@
                };
                let base = scheme + "://"@ + host + seq![':'] + dec_of(p as nat);
                let tail = match path {
                    Option::None => Seq::<char>::empty(),
                    Option::Some(raw) => {
                        let t = trim_of(raw);
                        if t.len() == 0 {
                            Seq::<char>::empty()
                        } else if t[0] == '/' {
                            t
                        } else {
                            seq!['/'] + t
                        }
                    },
                };
                Option::Some(base + tail)
            },
        }
    }
}

/// Composes the URL of a service from its parts.
pub fn build_service_url(
    protocol: &ServiceProtocol,
    host: &str,
    port: Option<u16>,
    path: Option<&str>,
) -> (r: Option<String>)
    ensures
        r.deep_view() == spec_build_url(*protocol, host@, port, path.deep_view()),
{
    let is_http = match protocol {
        ServiceProtocol::Http => true,
        _ => false,
    };
    let is_https = match protocol {
        ServiceProtocol::Https => true,
        _ => false,
    };
    if !is_http && !is_https {
        return Option::None;
    }
    let p = match port {
        Option::None => {
            return Option::None;
        },
        Option::Some(p) => p,
    };
    let mut out: Vec<char> = Vec::new();
    if is_http {
        crate::text::push_str_chars(&mut out, "http");
    } else {
        crate::text::push_str_chars(&mut out, "https");
    }
    crate::text::push_str_chars(&mut out, "://");
    crate::text::push_str_chars(&mut out, host);
    out.push(':');
    let ghost base0 = out@;
    crate::text::push_dec_u64(&mut out, p as u64);
    let ghost scheme = if is_http {
        "http"@
    } else {
        "https"@
    };
    proof {
        assert(out@ =~= scheme + "://"@ + host@ + seq![':'] + dec_of(p as nat));
    }
    let ghost base = out@;
    match path {
        Option::None => {},
        Option::Some(raw) => {
            let t = crate::text::trim_str(raw);
            let tv = crate::text::str_to_chars(t.as_str());
            if tv.len() == 0 {
            } else if tv[0] == '/' {
                let ghost o0 = out@;
                let mut j: usize = 0;
                while j < tv.len()
                    invariant
                        j <= tv@.len(),
                        out@ == o0 + tv@.subrange(0, j as int),
                    decreases tv@.len() - j,
                {
                    out.push(tv[j]);
                    j = j + 1;
                    proof {
                        assert(out@ =~= o0 + tv@.subrange(0, j as int));
                    }
                }
                proof {
                    assert(tv@.subrange(0, tv@.len() as int) =~= tv@);
                }
            } else {
                out.push('/');
                let ghost o0 = out@;
                let mut j: usize = 0;
                while j < tv.len()
                    invariant
                        j <= tv@.len(),
                        out@ == o0 + tv@.subrange(0, j as int),
                    decreases tv@.len() - j,
                {
                    out.push(tv[j]);
                    j = j + 1;
                    proof {
                        assert(out@ =~= o0 + tv@.subrange(0, j as int));
                    }
                }
                proof {
                    assert(tv@.subrange(0, tv@.len() as int) =~= tv@);
                    assert(out@ =~= base + (seq!['/'] + tv@));
                }
            }
        },
    }
    let r = crate::text::chars_to_string(&out);
    proof {
        assert(Option::Some(r@) =~= spec_build_url(*protocol, host@, port, path.deep_view()));
    }
    Option::Some(r)
}

impl ServiceEntry {
    /// The URL shown for this entry: the explicit override if set, else the
    /// URL composed from protocol, host, port and path.
    pub fn resolved_url(&self) -> (r: Option<String>)
        ensures
            r.deep_view() == (match self.deep_view().url {
                Option::Some(u) => Option::Some(u),
                Option::None => spec_build_url(
                    self.deep_view().protocol,
                    self.deep_view().host,
                    self.deep_view().port,
                    self.deep_view().path,
                ),
            }),
    {
        match &self.url {
            Option::Some(u) => Option::Some(u.clone()),
            Option::None => {
                let path_ref: Option<&str> = match &self.path {
                    Option::Some(p) => Option::Some(p.as_str()),
                    Option::None => Option::None,
                };
                build_service_url(&self.protocol, self.host.as_str(), self.port, path_ref)
            },
        }
    }
}

/// The names of the fields that a manual creation locks by default.
pub open spec fn default_locked_views() -> Seq<Seq<char>> {
    seq![
        "display_name"@,
        "host"@,
        "port"@,
        "protocol"@,
        "path"@,
        "url"@,
        "group"@,
        "tags"@,
        "icon"@,
        "description"@,
        "hidden"@,
        "favorite"@,
    ]
}

/// The default set of locked fields for manually created entries.
pub fn default_locked_fields() -> (r: Vec<String>)
    ensures
        r.deep_view() == default_locked_views(),
{
    let mut r: Vec<String> = Vec::new();
    r.push("display_name".to_owned());
    r.push("host".to_owned());
    r.push("port".to_owned());
    r.push("protocol".to_owned());
    r.push("path".to_owned());
    r.push("url".to_owned());
    r.push("group".to_owned());
    r.push("tags".to_owned());
    r.push("icon".to_owned());
    r.push("description".to_owned());
    r.push("hidden".to_owned());
    r.push("favorite".to_owned());
    proof {
        assert(r.deep_view() =~~= default_locked_views());
    }
    r
}

/// The lexicographic order used to sort locked field names.
pub open spec fn lex_leq_fn() -> spec_fn(Seq<char>, Seq<char>) -> bool {
    |a: Seq<char>, b: Seq<char>| lex_le(a, b)
}

/// What normalizing a locked-field list produces: blank names dropped, the
/// rest trimmed, sorted and deduplicated.
pub open spec fn spec_normalize_locks(s: Seq<Seq<char>>) -> Seq<Seq<char>> {
    dedup_adjacent(sort_ordered_by(lex_leq_fn(), trimmed_nonblank(s)))
}

/// Drops the names that are blank after trimming, and trims the kept ones.
pub open spec fn trimmed_nonblank(s: Seq<Seq<char>>) -> Seq<Seq<char>>
    decreases s.len(),
{
    if s.len() == 0 {
        Seq::empty()
    } else {
        let r = trimmed_nonblank(s.drop_last());
        if trim_of(s.last()).len() > 0 {
            r.push(trim_of(s.last()))
        } else {
            r
        }
    }
}

/// Normalizes a locked-field list in place: drops blank names, trims the
/// rest, sorts them and removes duplicates.
pub fn normalize_locked_fields(values: &mut Vec<String>)
    ensures
        final(values).deep_view() == spec_normalize_locks(old(values).deep_view()),
{
    let ghost orig = old(values).deep_view();
    // keep the non-blank names, trimmed
    let mut filtered: Vec<String> = Vec::new();
    let mut i: usize = 0;
    proof {
        assert(orig.take(0) =~~= Seq::<Seq<char>>::empty());
        assert(filtered.deep_view() =~~= trimmed_nonblank(orig.take(0)));
    }
    while i < values.len()
        invariant
            i <= values@.len(),
            orig == values.deep_view(),
            filtered.deep_view() == trimmed_nonblank(orig.take(i as int)),
        decreases values@.len() - i,
    {
        let ghost q = orig.take(i + 1);
        proof {
            assert(q.drop_last() =~~= orig.take(i as int));
            assert(q.last() == orig[i as int]);
            assert(orig[i as int] == values@[i as int]@);
        }
        let t = crate::text::trim_str(values[i].as_str());
        if !t.as_str().is_empty() {
            let ghost f0 = filtered.deep_view();
            filtered.push(t);
            proof {
                assert(filtered.deep_view() =~~= f0.push(trim_of(values@[i as int]@)));
                assert(trimmed_nonblank(q) == trimmed_nonblank(orig.take(i as int)).push(
                    trim_of(q.last()),
                ));
            }
        } else {
            proof {
                assert(trimmed_nonblank(q) == trimmed_nonblank(orig.take(i as int)));
            }
        }
        i = i + 1;
    }
    proof {
        assert(orig.take(values@.len() as int) =~~= orig);
    }
    let ghost fdv = filtered.deep_view();
    // sort the kept names
    let mut sorted: Vec<String> = Vec::new();
    let mut k: usize = 0;
    proof {
        assert(fdv.take(0) =~~= Seq::<Seq<char>>::empty());
        assert(sorted.deep_view() =~~= sort_ordered_by(lex_leq_fn(), fdv.take(0)));
    }
    while k < filtered.len()
        invariant
            k <= filtered@.len(),
            fdv == filtered.deep_view(),
            sorted.deep_view() == sort_ordered_by(lex_leq_fn(), fdv.take(k as int)),
        decreases filtered@.len() - k,
    {
        let e = filtered[k].clone();
        let ghost sdv = sorted.deep_view();
        let mut j: usize = 0;
        while j < sorted.len() && crate::text::lex_le_str(&sorted[j], &e)
            invariant
                j <= sorted@.len(),
                sdv == sorted.deep_view(),
                e@ == fdv[k as int],
                k < fdv.len(),
                forall|m: int| 0 <= m < j ==> lex_le(sdv[m], e@),
            decreases sorted@.len() - j,
        {
            j = j + 1;
        }
        proof {
            if (j as int) < sdv.len() {
                assert(!lex_le(sdv[j as int], e@));
            }
            assert(forall|m: int| 0 <= m < j ==> (lex_leq_fn())(sdv[m], e@));
            if (j as int) < sdv.len() {
                assert(!(lex_leq_fn())(sdv[j as int], e@));
            }
            crate::text::lemma_insert_ordered_split(lex_leq_fn(), sdv, e@, j as int);
        }
        sorted.insert(j, e);
        proof {
            assert(sorted.deep_view() =~~= sdv.take(j as int) + seq![fdv[k as int]] + sdv.skip(
                j as int,
            ));
            let q = fdv.take(k + 1);
            assert(q.drop_last() =~~= fdv.take(k as int));
            assert(q.last() == fdv[k as int]);
            assert(sort_ordered_by(lex_leq_fn(), q) == insert_ordered_by(
                lex_leq_fn(),
                sort_ordered_by(lex_leq_fn(), fdv.take(k as int)),
                fdv[k as int],
            ));
            assert(sorted.deep_view() =~~= sort_ordered_by(lex_leq_fn(), q));
        }
        k = k + 1;
    }
    proof {
        assert(fdv.take(filtered@.len() as int) =~~= fdv);
    }
    let ghost sdv2 = sorted.deep_view();
    // drop adjacent duplicates
    let mut out: Vec<String> = Vec::new();
    let mut d: usize = 0;
    proof {
        assert(sdv2.take(0) =~~= Seq::<Seq<char>>::empty());
        assert(out.deep_view() =~~= dedup_adjacent(sdv2.take(0)));
    }
    while d < sorted.len()
        invariant
            d <= sorted@.len(),
            sdv2 == sorted.deep_view(),
            out.deep_view() == dedup_adjacent(sdv2.take(d as int)),
        decreases sorted@.len() - d,
    {
        let ghost q = sdv2.take(d + 1);
        proof {
            assert(q.drop_last() =~~= sdv2.take(d as int));
            assert(q.last() == sdv2[d as int]);
        }
        let is_dup = if d == 0 {
            false
        } else {
            crate::text::eq_str(sorted[d - 1].as_str(), sorted[d].as_str())
        };
        if !is_dup {
            let ghost o0 = out.deep_view();
            out.push(sorted[d].clone());
            proof {
                assert(out.deep_view() =~~= o0.push(sdv2[d as int]));
                if d == 0 {
                    assert(q.len() == 1);
                    assert(dedup_adjacent(q) == q);
                    assert(out.deep_view() =~~= q);
                } else {
                    assert(q[q.len() - 2] == sdv2[d - 1]);
                    assert(q.last() != q[q.len() - 2]);
                    assert(dedup_adjacent(q) == dedup_adjacent(sdv2.take(d as int)).push(q.last()));
                }
            }
        } else {
            proof {
                assert(q[q.len() - 2] == sdv2[d - 1]);
                assert(q.last() == q[q.len() - 2]);
                assert(dedup_adjacent(q) == dedup_adjacent(sdv2.take(d as int)));
            }
        }
        d = d + 1;
    }
    proof {
        assert(sdv2.take(sorted@.len() as int) =~~= sdv2);
    }
    *values = out;
}

/// A request to create an entry by hand; unset fields get defaults.
#[derive(Debug)]
pub struct CreateServiceRequest {
    pub service_name: String,
    pub display_name: Option<String>,
    pub description: Option<String>,
    pub host: Option<String>,
    pub port: Option<u16>,
    pub protocol: Option<ServiceProtocol>,
    pub path: Option<String>,
    pub url: Option<String>,
    pub group: Option<String>,
    pub tags: Option<Vec<String>>,
    pub icon: Option<String>,
    pub hidden: Option<bool>,
    pub favorite: Option<bool>,
    pub locked_fields: Option<Vec<String>>,
}

/// The mathematical value of a `CreateServiceRequest`.
#[verifier::ext_equal]
pub struct CreateReqV {
    pub service_name: Seq<char>,
    pub display_name: Option<Seq<char>>,
    pub description: Option<Seq<char>>,
    pub host: Option<Seq<char>>,
    pub port: Option<u16>,
    pub protocol: Option<ServiceProtocol>,
    pub path: Option<Seq<char>>,
    pub url: Option<Seq<char>>,
    pub group: Option<Seq<char>>,
    pub tags: Option<Seq<Seq<char>>>,
    pub icon: Option<Seq<char>>,
    pub hidden: Option<bool>,
    pub favorite: Option<bool>,
    pub locked_fields: Option<Seq<Seq<char>>>,
}

impl DeepView for CreateServiceRequest {
    type V = CreateReqV;

    open spec fn deep_view(&self) -> CreateReqV {
        CreateReqV {
            service_name: self.service_name@,
            display_name: self.display_name.deep_view(),
            description: self.description.deep_view(),
            host: self.host.deep_view(),
            port: self.port,
            protocol: self.protocol,
            path: self.path.deep_view(),
            url: self.url.deep_view(),
            group: self.group.deep_view(),
            tags: self.tags.deep_view(),
            icon: self.icon.deep_view(),
            hidden: self.hidden,
            favorite: self.favorite,
            locked_fields: self.locked_fields.deep_view(),
        }
    }
}

/// The entry built from a creation request: the trimmed service name slugged
/// into the id, the display name humanized when absent, the host defaulted,
/// the protocol inferred from the port when absent, optional texts cleaned,
/// provenance `Manual`, and the locked set normalized (defaulting to every
/// editable field).
pub open spec fn spec_into_entry(q: CreateReqV, default_host: Seq<char>, now: i64) -> EntryV {
    let sname = trim_of(q.service_name);
    EntryV {
        id: spec_service_id(sname),
        service_name: sname,
        display_name: match q.display_name {
            Option::Some(d) => d,
            Option::None => humanized_of(sname),
        },
        description: q.description,
        host: match q.host {
            Option::Some(h) => if trim_of(h).len() > 0 {
                h
            } else {
                default_host
            },
            Option::None => default_host,
        },
        port: q.port,
        protocol: match q.protocol {
            Option::Some(p) => p,
            Option::None => spec_infer_protocol(q.port),
        },
        path: clean_opt(q.path),
        url: clean_opt(q.url),
        status: ServiceStatus::Unknown,
        group: clean_opt(q.group),
        tags: match q.tags {
            Option::Some(t) => t,
            Option::None => Seq::empty(),
        },
        icon: clean_opt(q.icon),
        hidden: match q.hidden {
            Option::Some(b) => b,
            Option::None => false,
        },
        favorite: match q.favorite {
            Option::Some(b) => b,
            Option::None => false,
        },
        source: ServiceSource::Manual,
        locked_fields: spec_normalize_locks(
            match q.locked_fields {
                Option::Some(l) => l,
                Option::None => default_locked_views(),
            },
        ),
        last_seen_at: Option::None,
        updated_at: now,
    }
}

impl CreateServiceRequest {
    /// Builds the entry this request describes, filling defaults. `now` is
    /// the creation time in milliseconds since the Unix epoch.
    pub fn into_entry(self, default_host: &str, now: i64) -> (r: ServiceEntry)
        ensures
            r.deep_view() == spec_into_entry(self.deep_view(), default_host@, now),
    {
        let ghost qv = self.deep_view();
        let CreateServiceRequest {
            service_name,
            display_name,
            description,
            host,
            port,
            protocol,
            path,
            url,
            group,
            tags,
            icon,
            hidden,
            favorite,
            locked_fields,
        } = self;
        let sname = crate::text::trim_str(service_name.as_str());
        let id = service_id(sname.as_str());
        let display = match display_name {
            Option::Some(d) => d,
            Option::None => humanize_service_name(sname.as_str()),
        };
        let host = match host {
            Option::Some(h) => if !crate::text::is_blank_str(h.as_str()) {
                h
            } else {
                default_host.to_owned()
            },
            Option::None => default_host.to_owned(),
        };
        let protocol = match protocol {
            Option::Some(p) => p,
            Option::None => infer_protocol_from_port(port),
        };
        let mut locked = match locked_fields {
            Option::Some(l) => l,
            Option::None => default_locked_fields(),
        };
        normalize_locked_fields(&mut locked);
        let r = ServiceEntry {
            id,
            service_name: sname,
            display_name: display,
            description,
            host,
            port,
            protocol,
            path: clean_optional(path),
            url: clean_optional(url),
            status: ServiceStatus::Unknown,
            group: clean_optional(group),
            tags: match tags {
                Option::Some(t) => t,
                Option::None => Vec::new(),
            },
            icon: clean_optional(icon),
            hidden: match hidden {
                Option::Some(b) => b,
                Option::None => false,
            },
            favorite: match favorite {
                Option::Some(b) => b,
                Option::None => false,
            },
            source: ServiceSource::Manual,
            locked_fields: locked,
            last_seen_at: Option::None,
            updated_at: now,
        };
        proof {
            assert(r.deep_view() =~~= spec_into_entry(qv, default_host@, now));
        }
        r
    }
}

/// A partial update: `None` means "leave unchanged"; on nullable fields an
/// explicit inner `None` means "clear".
#[derive(Debug)]
pub struct UpdateServiceRequest {
    pub display_name: Option<String>,
    pub description: Option<Option<String>>,
    pub host: Option<String>,
    pub port: Option<Option<u16>>,
    pub protocol: Option<ServiceProtocol>,
    pub path: Option<Option<String>>,
    pub url: Option<Option<String>>,
    pub status: Option<ServiceStatus>,
    pub group: Option<Option<String>>,
    pub tags: Option<Vec<String>>,
    pub icon: Option<Option<String>>,
    pub hidden: Option<bool>,
    pub favorite: Option<bool>,
    pub locked_fields: Option<Vec<String>>,
    pub auto_lock: Option<bool>,
}

/// The mathematical value of an `UpdateServiceRequest`.
#[verifier::ext_equal]
pub struct UpdateReqV {
    pub display_name: Option<Seq<char>>,
    pub description: Option<Option<Seq<char>>>,
    pub host: Option<Seq<char>>,
    pub port: Option<Option<u16>>,
    pub protocol: Option<ServiceProtocol>,
    pub path: Option<Option<Seq<char>>>,
    pub url: Option<Option<Seq<char>>>,
    pub status: Option<ServiceStatus>,
    pub group: Option<Option<Seq<char>>>,
    pub tags: Option<Seq<Seq<char>>>,
    pub icon: Option<Option<Seq<char>>>,
    pub hidden: Option<bool>,
    pub favorite: Option<bool>,
    pub locked_fields: Option<Seq<Seq<char>>>,
    pub auto_lock: Option<bool>,
}

impl DeepView for UpdateServiceRequest {
    type V = UpdateReqV;

    open spec fn deep_view(&self) -> UpdateReqV {
        UpdateReqV {
            display_name: self.display_name.deep_view(),
            description: self.description.deep_view(),
            host: self.host.deep_view(),
            port: self.port,
            protocol: self.protocol,
            path: self.path.deep_view(),
            url: self.url.deep_view(),
            status: self.status,
            group: self.group.deep_view(),
            tags: self.tags.deep_view(),
            icon: self.icon.deep_view(),
            hidden: self.hidden,
            favorite: self.favorite,
            locked_fields: self.locked_fields.deep_view(),
            auto_lock: self.auto_lock,
        }
    }
}

impl UpdateServiceRequest {
    /// Whether this update should lock the fields it changes; on by default.
    pub fn auto_lock_enabled(&self) -> (r: bool)
        ensures
            r == (match self.auto_lock {
                Option::Some(b) => b,
                Option::None => true,
            }),
    {
        match self.auto_lock {
            Option::Some(b) => b,
            Option::None => true,
        }
    }
}

/// A catalog query: free text, group, status, and whether hidden entries are
/// included.
#[derive(Debug)]
pub struct ServiceQuery {
    pub q: Option<String>,
    pub group: Option<String>,
    pub status: Option<ServiceStatus>,
    pub include_hidden: Option<bool>,
}

/// The mathematical value of a `ServiceQuery`.
#[verifier::ext_equal]
pub struct QueryV {
    pub q: Option<Seq<char>>,
    pub group: Option<Seq<char>>,
    pub status: Option<ServiceStatus>,
    pub include_hidden: Option<bool>,
}

impl DeepView for ServiceQuery {
    type V = QueryV;

    open spec fn deep_view(&self) -> QueryV {
        QueryV {
            q: self.q.deep_view(),
            group: self.group.deep_view(),
            status: self.status,
            include_hidden: self.include_hidden,
        }
    }
}

impl Default for ServiceQuery {
    /// The query that matches everything except hidden entries.
    fn default() -> (r: Self)
        ensures
            r.deep_view() == (QueryV {
                q: Option::None,
                group: Option::None,
                status: Option::None,
                include_hidden: Option::None,
            }),
    {
        ServiceQuery { q: Option::None, group: Option::None, status: Option::None, include_hidden: Option::None }
    }
}

/// Summary of the most recent discovery run.
#[derive(Debug, PartialEq, Eq)]
pub struct DiscoveryStatusInfo {
    pub last_started_at: Option<i64>,
    pub last_finished_at: Option<i64>,
    pub last_error: Option<String>,
    pub scanned_units: usize,
    pub active_units: usize,
    pub matched_ports: usize,
    pub discovered_services: usize,
    pub added: usize,
    pub updated: usize,
    pub unchanged: usize,
}

/// The mathematical value of a `DiscoveryStatusInfo`.
#[verifier::ext_equal]
pub struct StatusV {
    pub last_started_at: Option<i64>,
    pub last_finished_at: Option<i64>,
    pub last_error: Option<Seq<char>>,
    pub scanned_units: usize,
    pub active_units: usize,
    pub matched_ports: usize,
    pub discovered_services: usize,
    pub added: usize,
    pub updated: usize,
    pub unchanged: usize,
}

impl DeepView for DiscoveryStatusInfo {
    type V = StatusV;

    open spec fn deep_view(&self) -> StatusV {
        StatusV {
            last_started_at: self.last_started_at,
            last_finished_at: self.last_finished_at,
            last_error: self.last_error.deep_view(),
            scanned_units: self.scanned_units,
            active_units: self.active_units,
            matched_ports: self.matched_ports,
            discovered_services: self.discovered_services,
            added: self.added,
            updated: self.updated,
            unchanged: self.unchanged,
        }
    }
}

/// The zero-valued summary before any discovery run.
pub open spec fn zero_status() -> StatusV {
    StatusV {
        last_started_at: Option::None,
        last_finished_at: Option::None,
        last_error: Option::None,
        scanned_units: 0,
        active_units: 0,
        matched_ports: 0,
        discovered_services: 0,
        added: 0,
        updated: 0,
        unchanged: 0,
    }
}

impl Default for DiscoveryStatusInfo {
    /// The zero-valued summary.
    fn default() -> (r: Self)
        ensures
            r.deep_view() == zero_status(),
    {
        DiscoveryStatusInfo {
            last_started_at: Option::None,
            last_finished_at: Option::None,
            last_error: Option::None,
            scanned_units: 0,
            active_units: 0,
            matched_ports: 0,
            discovered_services: 0,
            added: 0,
            updated: 0,
            unchanged: 0,
        }
    }
}

impl Clone for DiscoveryStatusInfo {
    /// A copy with the same mathematical value.
    fn clone(&self) -> (r: Self)
        ensures
            r.deep_view() == self.deep_view(),
    {
        DiscoveryStatusInfo {
            last_started_at: self.last_started_at,
            last_finished_at: self.last_finished_at,
            last_error: clone_opt_string(&self.last_error),
            scanned_units: self.scanned_units,
            active_units: self.active_units,
            matched_ports: self.matched_ports,
            discovered_services: self.discovered_services,
            added: self.added,
            updated: self.updated,
            unchanged: self.unchanged,
        }
    }
}

/// The body returned by a discovery trigger: the run's summary.
#[derive(Debug)]
pub struct DiscoveryRunResponse {
    pub summary: DiscoveryStatusInfo,
}

/// A client-facing error message.
#[derive(Debug)]
pub struct ApiError {
    pub message: String,
}

impl ApiError {
    /// Wraps a message.
    pub fn new(message: String) -> (r: Self)
        ensures
            r.message@ == message@,
    {
        ApiError { message }
    }
}

/// A trimmed optional string: blank values become `None`.
pub open spec fn clean_opt(o: Option<Seq<char>>) -> Option<Seq<char>> {
    match o {
        Option::None => Option::None,
        Option::Some(s) => if trim_of(s).len() == 0 {
            Option::None
        } else {
            Option::Some(trim_of(s))
        },
    }
}

/// Trims an optional string, mapping blank values to `None`.
pub fn clean_optional(value: Option<String>) -> (r: Option<String>)
    ensures
        r.deep_view() == clean_opt(value.deep_view()),
{
    match value {
        Option::None => Option::None,
        Option::Some(s) => {
            let t = crate::text::trim_str(s.as_str());
            if t.as_str().is_empty() {
                Option::None
            } else {
                Option::Some(t)
            }
        },
    }
}

} // verus!
