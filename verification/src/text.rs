//! Character and string helpers shared by the catalog logic.
use vstd::prelude::*;
use vstd::string::StrSliceExecFns;

verus! {

/// What `str::to_lowercase` returns for a given sequence of characters.
pub uninterp spec fn lower_of(s: Seq<char>) -> Seq<char>;

/// What `str::to_uppercase` returns for a given sequence of characters.
pub uninterp spec fn upper_of(s: Seq<char>) -> Seq<char>;

/// Relies on str::to_lowercase: the result depends on the characters alone,
/// and an empty string stays empty.
#[verifier::external_body]
pub(crate) fn lower(s: &str) -> (r: String)
    ensures
        r@ == lower_of(s@),
        s@.len() == 0 ==> r@.len() == 0,
{
    s.to_lowercase()
}

/// Relies on str::to_uppercase: the result depends on the characters alone,
/// and an empty string stays empty.
#[verifier::external_body]
pub(crate) fn upper(s: &str) -> (r: String)
    ensures
        r@ == upper_of(s@),
        s@.len() == 0 ==> r@.len() == 0,
{
    s.to_uppercase()
}

/// Relies on String::push: appends exactly one character.
#[verifier::external_body]
pub(crate) fn push_char(s: &mut String, c: char)
    ensures
        final(s)@ == old(s)@.push(c),
{
    s.push(c);
}

/// Collects the characters of a string into a vector, preserving them exactly.
pub fn str_to_chars(s: &str) -> (r: Vec<char>)
    ensures
        r@ == s@,
{
    let n = s.unicode_len();
    let mut r: Vec<char> = Vec::new();
    let mut i: usize = 0;
    while i < n
        invariant
            i <= n,
            n == s@.len(),
            r@ == s@.subrange(0, i as int),
        decreases n - i,
    {
        r.push(s.get_char(i));
        i = i + 1;
        proof {
            assert(r@ =~= s@.subrange(0, i as int));
        }
    }
    proof {
        assert(r@ =~= s@);
    }
    r
}

/// Builds a string out of a vector of characters, preserving them exactly.
pub fn chars_to_string(v: &Vec<char>) -> (r: String)
    ensures
        r@ == v@,
{
    let mut r = String::new();
    let mut i: usize = 0;
    while i < v.len()
        invariant
            i <= v.len(),
            r@ == v@.subrange(0, i as int),
        decreases v.len() - i,
    {
        push_char(&mut r, v[i]);
        i = i + 1;
        proof {
            assert(r@ =~= v@.subrange(0, i as int));
        }
    }
    proof {
        assert(r@ =~= v@);
    }
    r
}

/// The needle `n` occurs in `h` starting at position `i`.
pub open spec fn is_substring_at(h: Seq<char>, n: Seq<char>, i: int) -> bool {
    0 <= i && i + n.len() <= h.len() && h.subrange(i, i + n.len()) == n
}

/// The needle `n` occurs somewhere in `h`.
pub open spec fn is_substring(h: Seq<char>, n: Seq<char>) -> bool {
    exists|i: int| is_substring_at(h, n, i)
}

/// Substring search over character vectors.
pub fn contains_chars(h: &Vec<char>, n: &Vec<char>) -> (r: bool)
    ensures
        r == is_substring(h@, n@),
{
    if n.len() == 0 {
        proof {
            assert(h@.subrange(0, 0) =~= n@);
            assert(is_substring_at(h@, n@, 0));
        }
        return true;
    }
    if n.len() > h.len() {
        proof {
            assert(forall|i: int| !is_substring_at(h@, n@, i));
        }
        return false;
    }
    let bound: usize = h.len() - n.len();
    let mut i: usize = 0;
    loop
        invariant
            i <= bound + 1,
            bound == h.len() - n.len(),
            0 < n.len() <= h.len(),
            forall|k: int| 0 <= k < i ==> !is_substring_at(h@, n@, k),
        decreases bound + 1 - i,
    {
        if i > bound {
            proof {
                assert(forall|k: int| k > bound ==> !is_substring_at(h@, n@, k));
            }
            return false;
        }
        let mut j: usize = 0;
        let mut matches: bool = true;
        while j < n.len()
            invariant
                j <= n.len(),
                i <= bound,
                bound == h.len() - n.len(),
                n.len() <= h.len(),
                matches ==> forall|t: int| 0 <= t < j ==> h@[i + t] == n@[t],
            !matches ==> exists|t: int| 0 <= t < n@.len() && h@[i + t] != n@[t],
            decreases n.len() - j,
        {
            if h[i + j] != n[j] {
                proof {
                    assert(h@[i + j] != n@[j as int]);
                }
                matches = false;
                j = n.len();
            } else {
                j = j + 1;
            }
        }
        if matches {
            proof {
                assert(h@.subrange(i as int, i + n@.len()) =~= n@);
                assert(is_substring_at(h@, n@, i as int));
            }
            return true;
        }
        proof {
            if is_substring_at(h@, n@, i as int) {
                assert(forall|t: int| 0 <= t < n@.len()
                    ==> h@.subrange(i as int, i + n@.len())[t] == n@[t]);
                assert(forall|t: int| 0 <= t < n@.len() ==> h@[i + t] == n@[t]);
                assert(false);
            }
        }
        i = i + 1;
    }
}

/// Substring search over string slices.
pub fn contains_str(h: &str, n: &str) -> (r: bool)
    ensures
        r == is_substring(h@, n@),
{
    let hv = str_to_chars(h);
    let nv = str_to_chars(n);
    contains_chars(&hv, &nv)
}

/// The Unicode `White_Space` characters, the set `str::trim` strips.
pub open spec fn is_space(c: char) -> bool {
    let u = c as u32;
    (9 <= u && u <= 13) || u == 32 || u == 0x85 || u == 0xA0 || u == 0x1680 || (0x2000 <= u && u
        <= 0x200A) || u == 0x2028 || u == 0x2029 || u == 0x202F || u == 0x205F || u == 0x3000
}

/// Decides `is_space`.
pub fn is_space_char(c: char) -> (r: bool)
    ensures
        r == is_space(c),
{
    let u = c as u32;
    (9 <= u && u <= 13) || u == 32 || u == 0x85 || u == 0xA0 || u == 0x1680 || (0x2000 <= u && u
        <= 0x200A) || u == 0x2028 || u == 0x2029 || u == 0x202F || u == 0x205F || u == 0x3000
}

pub open spec fn trim_start_of(s: Seq<char>) -> Seq<char>
    decreases s.len(),
{
    if s.len() > 0 && is_space(s[0]) {
        trim_start_of(s.drop_first())
    } else {
        s
    }
}

pub open spec fn trim_end_of(s: Seq<char>) -> Seq<char>
    decreases s.len(),
{
    if s.len() > 0 && is_space(s.last()) {
        trim_end_of(s.drop_last())
    } else {
        s
    }
}

/// What `str::trim` leaves: the input without leading and trailing white space.
pub open spec fn trim_of(s: Seq<char>) -> Seq<char> {
    trim_end_of(trim_start_of(s))
}

proof fn lemma_trim_start_skip(s: Seq<char>, k: int)
    requires
        0 <= k <= s.len(),
        forall|i: int| 0 <= i < k ==> is_space(s[i]),
        k == s.len() || !is_space(s[k]),
    ensures
        trim_start_of(s) == s.skip(k),
    decreases k,
{
    if k == 0 {
        assert(s.skip(0) =~= s);
    } else {
        assert(is_space(s[0]));
        lemma_trim_start_skip(s.drop_first(), k - 1);
        assert(s.drop_first().skip(k - 1) =~= s.skip(k));
    }
}

proof fn lemma_trim_end_take(s: Seq<char>, k: int)
    requires
        0 <= k <= s.len(),
        forall|i: int| k <= i < s.len() ==> is_space(s[i]),
        k == 0 || !is_space(s[k - 1]),
    ensures
        trim_end_of(s) == s.take(k),
    decreases s.len() - k,
{
    if k == s.len() {
        if s.len() > 0 && is_space(s.last()) {
            assert(false);
        }
        assert(s.take(k) =~= s);
    } else {
        assert(is_space(s.last()));
        lemma_trim_end_take(s.drop_last(), k);
        assert(s.drop_last().take(k) =~= s.take(k));
    }
}

/// Strips leading and trailing white space from a character vector.
pub fn trim_chars(v: &Vec<char>) -> (r: Vec<char>)
    ensures
        r@ == trim_of(v@),
{
    let n = v.len();
    let mut a: usize = 0;
    while a < n && is_space_char(v[a])
        invariant
            a <= n,
            n == v.len(),
            forall|i: int| 0 <= i < a ==> is_space(v@[i]),
        decreases n - a,
    {
        a = a + 1;
    }
    proof {
        lemma_trim_start_skip(v@, a as int);
    }
    let mut b: usize = n;
    while b > a && is_space_char(v[b - 1])
        invariant
            a <= b <= n,
            n == v.len(),
            forall|i: int| b <= i < n ==> is_space(v@[i]),
        decreases b,
    {
        b = b - 1;
    }
    proof {
        let t = v@.skip(a as int);
        assert(forall|i: int| b - a <= i < t.len() ==> is_space(t[i]));
        if b > a {
            assert(!is_space(t[b - a - 1]));
        }
        lemma_trim_end_take(t, b - a);
        assert(t.take(b - a) =~= v@.subrange(a as int, b as int));
    }
    let mut r: Vec<char> = Vec::new();
    let mut i: usize = a;
    while i < b
        invariant
            a <= i <= b <= n,
            n == v.len(),
            r@ == v@.subrange(a as int, i as int),
        decreases b - i,
    {
        r.push(v[i]);
        i = i + 1;
        proof {
            assert(r@ =~= v@.subrange(a as int, i as int));
        }
    }
    r
}

/// Strips leading and trailing white space from a string.
pub fn trim_str(s: &str) -> (r: String)
    ensures
        r@ == trim_of(s@),
{
    let v = str_to_chars(s);
    let t = trim_chars(&v);
    chars_to_string(&t)
}

/// Whether a string is empty after trimming white space.
pub fn is_blank_str(s: &str) -> (r: bool)
    ensures
        r == (trim_of(s@).len() == 0),
{
    let v = str_to_chars(s);
    let t = trim_chars(&v);
    t.len() == 0
}

/// Lexicographic order on character sequences by Unicode scalar value: the
/// order `str::cmp` induces.
pub open spec fn lex_le(a: Seq<char>, b: Seq<char>) -> bool
    decreases a.len(),
{
    if a.len() == 0 {
        true
    } else if b.len() == 0 {
        false
    } else if a[0] != b[0] {
        (a[0] as int) < (b[0] as int)
    } else {
        lex_le(a.drop_first(), b.drop_first())
    }
}

proof fn lemma_lex_le_common_prefix(a: Seq<char>, b: Seq<char>, i: int)
    requires
        0 <= i <= a.len(),
        i <= b.len(),
        forall|j: int| 0 <= j < i ==> a[j] == b[j],
    ensures
        lex_le(a, b) == lex_le(a.skip(i), b.skip(i)),
    decreases i,
{
    if i == 0 {
        assert(a.skip(0) =~= a);
        assert(b.skip(0) =~= b);
    } else {
        assert(a[0] == b[0]);
        assert(a.len() > 0);
        lemma_lex_le_common_prefix(a.drop_first(), b.drop_first(), i - 1);
        assert(a.drop_first().skip(i - 1) =~= a.skip(i));
        assert(b.drop_first().skip(i - 1) =~= b.skip(i));
    }
}

/// The lexicographic order is total.
pub proof fn lemma_lex_le_total(a: Seq<char>, b: Seq<char>)
    ensures
        lex_le(a, b) || lex_le(b, a),
    decreases a.len(),
{
    if a.len() == 0 {
    } else if b.len() == 0 {
    } else if a[0] != b[0] {
    } else {
        lemma_lex_le_total(a.drop_first(), b.drop_first());
    }
}

/// The lexicographic order is transitive.
pub proof fn lemma_lex_le_trans(a: Seq<char>, b: Seq<char>, c: Seq<char>)
    requires
        lex_le(a, b),
        lex_le(b, c),
    ensures
        lex_le(a, c),
    decreases a.len(),
{
    if a.len() > 0 {
        assert(b.len() > 0);
        assert(c.len() > 0);
        if a[0] == b[0] && b[0] == c[0] {
            lemma_lex_le_trans(a.drop_first(), b.drop_first(), c.drop_first());
        }
    }
}

/// Decides `lex_le` on character vectors.
pub fn lex_le_chars(a: &Vec<char>, b: &Vec<char>) -> (r: bool)
    ensures
        r == lex_le(a@, b@),
{
    let mut i: usize = 0;
    loop
        invariant
            i <= a.len(),
            i <= b.len(),
            forall|j: int| 0 <= j < i ==> a@[j] == b@[j],
        decreases a.len() - i,
    {
        proof {
            lemma_lex_le_common_prefix(a@, b@, i as int);
        }
        if i >= a.len() {
            return true;
        }
        if i >= b.len() {
            return false;
        }
        let ca = a[i];
        let cb = b[i];
        if ca != cb {
            return ca < cb;
        }
        i = i + 1;
    }
}

/// Decides `lex_le` on strings.
pub fn lex_le_str(a: &String, b: &String) -> (r: bool)
    ensures
        r == lex_le(a@, b@),
{
    let av = str_to_chars(a.as_str());
    let bv = str_to_chars(b.as_str());
    lex_le_chars(&av, &bv)
}

pub open spec fn digit_char(d: nat) -> char {
    if d == 0 {
        '0'
    } else if d == 1 {
        '1'
    } else if d == 2 {
        '2'
    } else if d == 3 {
        '3'
    } else if d == 4 {
        '4'
    } else if d == 5 {
        '5'
    } else if d == 6 {
        '6'
    } else if d == 7 {
        '7'
    } else if d == 8 {
        '8'
    } else {
        '9'
    }
}

/// The decimal digits of `n`, most significant first.
pub open spec fn dec_of(n: nat) -> Seq<char>
    decreases n,
{
    if n < 10 {
        seq![digit_char(n)]
    } else {
        dec_of(n / 10).push(digit_char(n % 10))
    }
}

fn digit_to_char(d: u64) -> (c: char)
    requires
        d < 10,
    ensures
        c == digit_char(d as nat),
{
    if d == 0 {
        '0'
    } else if d == 1 {
        '1'
    } else if d == 2 {
        '2'
    } else if d == 3 {
        '3'
    } else if d == 4 {
        '4'
    } else if d == 5 {
        '5'
    } else if d == 6 {
        '6'
    } else if d == 7 {
        '7'
    } else if d == 8 {
        '8'
    } else {
        '9'
    }
}

/// Appends the decimal digits of `n` to `out`.
pub fn push_dec_u64(out: &mut Vec<char>, n: u64)
    ensures
        final(out)@ == old(out)@ + dec_of(n as nat),
    decreases n,
{
    if n < 10 {
        out.push(digit_to_char(n));
        proof {
            assert(out@ =~= old(out)@ + dec_of(n as nat));
        }
    } else {
        push_dec_u64(out, n / 10);
        out.push(digit_to_char(n % 10));
        proof {
            assert(out@ =~= old(out)@ + dec_of(n as nat));
        }
    }
}

/// The decimal rendering of a signed number: a minus sign, then the digits.
pub open spec fn dec_i64_of(n: int) -> Seq<char> {
    if n >= 0 {
        dec_of(n as nat)
    } else {
        seq!['-'] + dec_of((-n) as nat)
    }
}

/// Appends the decimal rendering of `n` to `out`.
pub fn push_dec_i64(out: &mut Vec<char>, n: i64)
    ensures
        final(out)@ == old(out)@ + dec_i64_of(n as int),
{
    if n >= 0 {
        push_dec_u64(out, n as u64);
    } else {
        out.push('-');
        let m: u64 = ((-(n + 1)) as u64) + 1;
        proof {
            assert(m == -(n as int));
        }
        push_dec_u64(out, m);
        proof {
            assert(old(out)@.push('-') + dec_of(m as nat) =~= old(out)@ + dec_i64_of(n as int));
        }
    }
}

/// Renders `n` in decimal.
pub fn u64_to_string(n: u64) -> (r: String)
    ensures
        r@ == dec_of(n as nat),
{
    let mut v: Vec<char> = Vec::new();
    push_dec_u64(&mut v, n);
    proof {
        assert(v@ =~= dec_of(n as nat));
    }
    chars_to_string(&v)
}

pub open spec fn is_digit(c: char) -> bool {
    48 <= (c as u32) && (c as u32) <= 57
}

pub open spec fn digit_val(c: char) -> nat {
    ((c as u32) - 48) as nat
}

/// The value of a run of decimal digits.
pub open spec fn digits_val(s: Seq<char>) -> nat
    decreases s.len(),
{
    if s.len() == 0 {
        0
    } else {
        digits_val(s.drop_last()) * 10 + digit_val(s.last())
    }
}

/// Character-for-character equality of two string slices.
pub fn eq_str(a: &str, b: &str) -> (r: bool)
    ensures
        r == (a@ == b@),
{
    let n = a.unicode_len();
    let m = b.unicode_len();
    if n != m {
        return false;
    }
    let mut i: usize = 0;
    while i < n
        invariant
            i <= n,
            n == a@.len(),
            n == b@.len(),
            forall|j: int| 0 <= j < i ==> a@[j] == b@[j],
        decreases n - i,
    {
        if a.get_char(i) != b.get_char(i) {
            return false;
        }
        i = i + 1;
    }
    proof {
        assert(a@ =~= b@);
    }
    true
}

/// Appends every character of `s` to `out`.
pub fn push_str_chars(out: &mut Vec<char>, s: &str)
    ensures
        final(out)@ == old(out)@ + s@,
{
    let n = s.unicode_len();
    let mut i: usize = 0;
    while i < n
        invariant
            i <= n,
            n == s@.len(),
            out@ == old(out)@ + s@.subrange(0, i as int),
        decreases n - i,
    {
        out.push(s.get_char(i));
        i = i + 1;
        proof {
            assert(out@ =~= old(out)@ + s@.subrange(0, i as int));
        }
    }
    proof {
        assert(old(out)@ + s@.subrange(0, n as int) =~= old(out)@ + s@);
    }
}

/// Inserts `e` into `s` after every element that `leq` places at or before it;
/// on a sorted sequence this is a stable sorted insertion.
pub open spec fn insert_ordered_by<T>(leq: spec_fn(T, T) -> bool, s: Seq<T>, e: T) -> Seq<T>
    decreases s.len(),
{
    if s.len() == 0 {
        seq![e]
    } else if leq(s[0], e) {
        seq![s[0]] + insert_ordered_by(leq, s.drop_first(), e)
    } else {
        seq![e] + s
    }
}

/// Stable insertion sort: the order that a stable sort by `leq` produces.
pub open spec fn sort_ordered_by<T>(leq: spec_fn(T, T) -> bool, s: Seq<T>) -> Seq<T>
    decreases s.len(),
{
    if s.len() == 0 {
        Seq::empty()
    } else {
        insert_ordered_by(leq, sort_ordered_by(leq, s.drop_last()), s.last())
    }
}

/// An ordered insertion is a split at the first element beyond `e`.
pub proof fn lemma_insert_ordered_split<T>(leq: spec_fn(T, T) -> bool, s: Seq<T>, e: T, j: int)
    requires
        0 <= j <= s.len(),
        forall|k: int| 0 <= k < j ==> leq(s[k], e),
        j < s.len() ==> !leq(s[j], e),
    ensures
        insert_ordered_by(leq, s, e) == s.take(j) + seq![e] + s.skip(j),
    decreases j,
{
    if j == 0 {
        if s.len() == 0 {
            assert(insert_ordered_by(leq, s, e) =~= s.take(0) + seq![e] + s.skip(0));
        } else {
            assert(!leq(s[0], e));
            assert(seq![e] + s =~= s.take(0) + seq![e] + s.skip(0));
        }
    } else {
        assert(leq(s[0], e));
        lemma_insert_ordered_split(leq, s.drop_first(), e, j - 1);
        assert(seq![s[0]] + (s.drop_first().take(j - 1) + seq![e] + s.drop_first().skip(j - 1))
            =~= s.take(j) + seq![e] + s.skip(j));
    }
}

/// Elements pairwise in order: what a sorted sequence satisfies.
pub open spec fn pairwise_ordered_by<T>(leq: spec_fn(T, T) -> bool, s: Seq<T>) -> bool {
    forall|i: int, j: int| 0 <= i < j < s.len() ==> leq(s[i], s[j])
}

/// An ordered insertion adds exactly one element to the multiset.
pub proof fn lemma_insert_ordered_multiset<T>(leq: spec_fn(T, T) -> bool, s: Seq<T>, e: T)
    ensures
        insert_ordered_by(leq, s, e).to_multiset() == s.to_multiset().insert(e),
    decreases s.len(),
{
    broadcast use vstd::seq_lib::group_to_multiset_ensures;
    broadcast use vstd::seq_lib::lemma_multiset_commutative;

    if s.len() == 0 {
        assert(insert_ordered_by(leq, s, e) =~= Seq::<T>::empty().push(e));
        assert(s =~= Seq::<T>::empty());
        assert(insert_ordered_by(leq, s, e).to_multiset() =~= s.to_multiset().insert(e));
    } else if leq(s[0], e) {
        lemma_insert_ordered_multiset(leq, s.drop_first(), e);
        assert(s =~= seq![s[0]] + s.drop_first());
        assert(seq![s[0]] =~= Seq::<T>::empty().push(s[0]));
        assert(insert_ordered_by(leq, s, e).to_multiset() =~= s.to_multiset().insert(e));
    } else {
        assert(seq![e] =~= Seq::<T>::empty().push(e));
        assert(insert_ordered_by(leq, s, e).to_multiset() =~= s.to_multiset().insert(e));
    }
}

/// A stable insertion sort permutes its input.
pub proof fn lemma_sort_ordered_multiset<T>(leq: spec_fn(T, T) -> bool, s: Seq<T>)
    ensures
        sort_ordered_by(leq, s).to_multiset() == s.to_multiset(),
    decreases s.len(),
{
    broadcast use vstd::seq_lib::group_to_multiset_ensures;

    if s.len() > 0 {
        lemma_sort_ordered_multiset(leq, s.drop_last());
        lemma_insert_ordered_multiset(leq, sort_ordered_by(leq, s.drop_last()), s.last());
        assert(s =~= s.drop_last().push(s.last()));
        assert(sort_ordered_by(leq, s).to_multiset() =~= s.to_multiset());
    }
}

/// Sorting preserves the elements.
pub proof fn lemma_sort_ordered_contains<T>(leq: spec_fn(T, T) -> bool, s: Seq<T>, x: T)
    ensures
        sort_ordered_by(leq, s).contains(x) <==> s.contains(x),
{
    broadcast use vstd::seq_lib::group_to_multiset_ensures;

    lemma_sort_ordered_multiset(leq, s);
    sort_ordered_by(leq, s).to_multiset_ensures();
    s.to_multiset_ensures();
    assert(sort_ordered_by(leq, s).to_multiset().count(x) == s.to_multiset().count(x));
}

/// An ordered insertion into an ordered sequence stays ordered, for a total
/// and transitive order.
pub proof fn lemma_insert_ordered_sorted<T>(leq: spec_fn(T, T) -> bool, s: Seq<T>, e: T)
    requires
        pairwise_ordered_by(leq, s),
        forall|a: T, b: T| #[trigger] leq(a, b) || leq(b, a),
        forall|a: T, b: T, c: T| #[trigger] leq(a, b) && #[trigger] leq(b, c) ==> leq(a, c),
    ensures
        pairwise_ordered_by(leq, insert_ordered_by(leq, s, e)),
    decreases s.len(),
{
    if s.len() == 0 {
    } else if leq(s[0], e) {
        assert(pairwise_ordered_by(leq, s.drop_first())) by {
            assert(forall|i: int, j: int|
                0 <= i < j < s.drop_first().len() ==> s.drop_first()[i] == s[i + 1]
                    && s.drop_first()[j] == s[j + 1]);
        }
        lemma_insert_ordered_sorted(leq, s.drop_first(), e);
        let t = insert_ordered_by(leq, s.drop_first(), e);
        let r = seq![s[0]] + t;
        assert(insert_ordered_by(leq, s, e) == r);
        assert forall|i: int, j: int| 0 <= i < j < r.len() implies leq(r[i], r[j]) by {
            if i == 0 {
                // the head is below every element of the tail insertion
                let x = t[j - 1];
                lemma_insert_ordered_multiset(leq, s.drop_first(), e);
                broadcast use vstd::seq_lib::group_to_multiset_ensures;

                assert(t.contains(x));
                if x == e {
                    assert(leq(s[0], x));
                } else {
                    assert(s.drop_first().to_multiset().insert(e).count(x) > 0);
                    if s.drop_first().to_multiset().count(x) > 0 {
                        assert(s.drop_first().contains(x));
                        let w = choose|w: int|
                            0 <= w < s.drop_first().len() && s.drop_first()[w] == x;
                        assert(s[w + 1] == x);
                        assert(leq(s[0], x));
                    } else {
                        assert(x == e);
                    }
                }
            } else {
                assert(leq(t[i - 1], t[j - 1]));
            }
        }
    } else {
        let r = seq![e] + s;
        assert(insert_ordered_by(leq, s, e) == r);
        assert(leq(e, s[0]));
        assert forall|i: int, j: int| 0 <= i < j < r.len() implies leq(r[i], r[j]) by {
            if i == 0 {
                if j == 1 {
                    assert(leq(e, s[0]));
                } else {
                    assert(leq(s[0], s[j - 1]));
                    assert(leq(e, s[j - 1]));
                }
            } else {
                assert(leq(s[i - 1], s[j - 1]));
            }
        }
    }
}

/// A stable insertion sort orders its input, for a total and transitive
/// order.
pub proof fn lemma_sort_ordered_sorted<T>(leq: spec_fn(T, T) -> bool, s: Seq<T>)
    requires
        forall|a: T, b: T| #[trigger] leq(a, b) || leq(b, a),
        forall|a: T, b: T, c: T| #[trigger] leq(a, b) && #[trigger] leq(b, c) ==> leq(a, c),
    ensures
        pairwise_ordered_by(leq, sort_ordered_by(leq, s)),
    decreases s.len(),
{
    if s.len() > 0 {
        lemma_sort_ordered_sorted(leq, s.drop_last());
        lemma_insert_ordered_sorted(leq, sort_ordered_by(leq, s.drop_last()), s.last());
    }
}

/// Sorting an already ordered sequence changes nothing.
pub proof fn lemma_sort_of_sorted<T>(leq: spec_fn(T, T) -> bool, s: Seq<T>)
    requires
        pairwise_ordered_by(leq, s),
    ensures
        sort_ordered_by(leq, s) == s,
    decreases s.len(),
{
    if s.len() > 0 {
        assert(pairwise_ordered_by(leq, s.drop_last())) by {
            assert(forall|i: int, j: int|
                0 <= i < j < s.drop_last().len() ==> s.drop_last()[i] == s[i]
                    && s.drop_last()[j] == s[j]);
        }
        lemma_sort_of_sorted(leq, s.drop_last());
        assert(forall|k: int| 0 <= k < s.drop_last().len() ==> leq(#[trigger] s.drop_last()[k], s.last()));
        lemma_insert_ordered_split(leq, s.drop_last(), s.last(), s.len() - 1);
        assert(s.drop_last().take(s.len() - 1) + seq![s.last()] + s.drop_last().skip(s.len() - 1)
            =~= s);
    }
}

/// What `Vec::dedup` leaves: each element that differs from its predecessor.
pub open spec fn dedup_adjacent<T>(s: Seq<T>) -> Seq<T>
    decreases s.len(),
{
    if s.len() <= 1 {
        s
    } else if s.last() == s[s.len() - 2] {
        dedup_adjacent(s.drop_last())
    } else {
        dedup_adjacent(s.drop_last()).push(s.last())
    }
}

/// The whitespace-separated words of `s` with `cur` pending, as
/// `str::split_whitespace` produces them: no empties.
pub open spec fn ws_words_acc(s: Seq<char>, cur: Seq<char>) -> Seq<Seq<char>>
    decreases s.len(),
{
    if s.len() == 0 {
        if cur.len() > 0 {
            seq![cur]
        } else {
            Seq::empty()
        }
    } else if is_space(s[0]) {
        (if cur.len() > 0 {
            seq![cur]
        } else {
            Seq::<Seq<char>>::empty()
        }) + ws_words_acc(s.drop_first(), Seq::empty())
    } else {
        ws_words_acc(s.drop_first(), cur.push(s[0]))
    }
}

/// What `str::split_whitespace` yields.
pub open spec fn split_ws(s: Seq<char>) -> Seq<Seq<char>> {
    ws_words_acc(s, Seq::empty())
}

/// Splits a character vector into its whitespace-separated words.
pub fn split_ws_chars(v: &Vec<char>) -> (r: Vec<Vec<char>>)
    ensures
        r.deep_view() == split_ws(v@),
{
    let n = v.len();
    let mut words: Vec<Vec<char>> = Vec::new();
    let mut cur: Vec<char> = Vec::new();
    let mut i: usize = 0;
    proof {
        assert(v@.skip(0) =~= v@);
        assert(words.deep_view() =~~= Seq::<Seq<char>>::empty());
        assert(Seq::<Seq<char>>::empty() + ws_words_acc(v@, cur@) =~~= ws_words_acc(v@, cur@));
    }
    while i < n
        invariant
            i <= n,
            n == v@.len(),
            split_ws(v@) == words.deep_view() + ws_words_acc(v@.skip(i as int), cur@),
        decreases n - i,
    {
        let c = v[i];
        let ghost words0 = words.deep_view();
        let ghost cur0 = cur@;
        proof {
            assert(v@.skip(i as int)[0] == v@[i as int]);
            assert(v@.skip(i as int).drop_first() =~= v@.skip(i + 1));
        }
        if is_space_char(c) {
            if cur.len() > 0 {
                words.push(cur);
                cur = Vec::new();
                proof {
                    assert(words.deep_view() =~~= words0.push(cur0));
                    assert(ws_words_acc(v@.skip(i as int), cur0) == seq![cur0] + ws_words_acc(
                        v@.skip(i + 1),
                        Seq::<char>::empty(),
                    ));
                    assert(words0 + (seq![cur0] + ws_words_acc(v@.skip(i + 1), Seq::<char>::empty()))
                        =~~= words.deep_view() + ws_words_acc(v@.skip(i + 1), cur@));
                }
            } else {
                proof {
                    assert(ws_words_acc(v@.skip(i as int), cur0) == Seq::<Seq<char>>::empty()
                        + ws_words_acc(v@.skip(i + 1), Seq::<char>::empty()));
                    assert(Seq::<Seq<char>>::empty() + ws_words_acc(v@.skip(i + 1), Seq::<char>::empty())
                        =~~= ws_words_acc(v@.skip(i + 1), Seq::<char>::empty()));
                    assert(cur@ =~= Seq::<char>::empty());
                }
            }
        } else {
            cur.push(c);
            proof {
                assert(ws_words_acc(v@.skip(i as int), cur0) == ws_words_acc(
                    v@.skip(i + 1),
                    cur0.push(c),
                ));
            }
        }
        i = i + 1;
    }
    proof {
        assert(v@.skip(n as int) =~= Seq::<char>::empty());
    }
    if cur.len() > 0 {
        let ghost words1 = words.deep_view();
        let ghost cur1 = cur@;
        words.push(cur);
        proof {
            assert(ws_words_acc(Seq::<char>::empty(), cur1) == seq![cur1]);
            assert(words.deep_view() =~~= words1.push(cur1));
            assert(words1 + seq![cur1] =~~= words1.push(cur1));
        }
    } else {
        proof {
            assert(ws_words_acc(Seq::<char>::empty(), cur@) == Seq::<Seq<char>>::empty());
            assert(words.deep_view() + Seq::<Seq<char>>::empty() =~~= words.deep_view());
        }
    }
    words
}

/// A line's pending characters without a trailing carriage return.
pub open spec fn strip_cr(cur: Seq<char>) -> Seq<char> {
    if cur.len() > 0 && cur.last() == '\r' {
        cur.drop_last()
    } else {
        cur
    }
}

/// The lines of `s` with `cur` pending, as `str::lines` produces them:
/// split at `\n`, a `\r` before the `\n` stripped, no line after a final
/// newline.
pub open spec fn lines_acc(s: Seq<char>, cur: Seq<char>) -> Seq<Seq<char>>
    decreases s.len(),
{
    if s.len() == 0 {
        if cur.len() > 0 {
            seq![cur]
        } else {
            Seq::empty()
        }
    } else if s[0] == '\n' {
        seq![strip_cr(cur)] + lines_acc(s.drop_first(), Seq::empty())
    } else {
        lines_acc(s.drop_first(), cur.push(s[0]))
    }
}

/// What `str::lines` yields.
pub open spec fn split_lines(s: Seq<char>) -> Seq<Seq<char>> {
    lines_acc(s, Seq::empty())
}

/// Splits a string into its lines.
pub fn split_lines_str(s: &str) -> (r: Vec<Vec<char>>)
    ensures
        r.deep_view() == split_lines(s@),
{
    let v = str_to_chars(s);
    let n = v.len();
    let mut out: Vec<Vec<char>> = Vec::new();
    let mut cur: Vec<char> = Vec::new();
    let mut i: usize = 0;
    proof {
        assert(v@.skip(0) =~= v@);
        assert(out.deep_view() =~~= Seq::<Seq<char>>::empty());
        assert(Seq::<Seq<char>>::empty() + lines_acc(v@, cur@) =~~= lines_acc(v@, cur@));
    }
    while i < n
        invariant
            i <= n,
            n == v@.len(),
            v@ == s@,
            split_lines(s@) == out.deep_view() + lines_acc(v@.skip(i as int), cur@),
        decreases n - i,
    {
        let c = v[i];
        let ghost out0 = out.deep_view();
        let ghost cur0 = cur@;
        proof {
            assert(v@.skip(i as int)[0] == v@[i as int]);
            assert(v@.skip(i as int).drop_first() =~= v@.skip(i + 1));
        }
        if c == '\n' {
            if cur.len() > 0 && cur[cur.len() - 1] == '\r' {
                let m = cur.len() - 1;
                cur.truncate(m);
                proof {
                    assert(cur@ =~= strip_cr(cur0));
                }
            } else {
                proof {
                    assert(cur@ == strip_cr(cur0));
                }
            }
            out.push(cur);
            cur = Vec::new();
            proof {
                assert(out.deep_view() =~~= out0.push(strip_cr(cur0)));
                assert(lines_acc(v@.skip(i as int), cur0) == seq![strip_cr(cur0)] + lines_acc(
                    v@.skip(i + 1),
                    Seq::<char>::empty(),
                ));
                assert(out0 + (seq![strip_cr(cur0)] + lines_acc(v@.skip(i + 1), Seq::<char>::empty()))
                    =~~= out.deep_view() + lines_acc(v@.skip(i + 1), cur@));
            }
        } else {
            cur.push(c);
            proof {
                assert(lines_acc(v@.skip(i as int), cur0) == lines_acc(v@.skip(i + 1), cur0.push(c)));
            }
        }
        i = i + 1;
    }
    proof {
        assert(v@.skip(n as int) =~= Seq::<char>::empty());
    }
    if cur.len() > 0 {
        let ghost out1 = out.deep_view();
        let ghost cur1 = cur@;
        out.push(cur);
        proof {
            assert(lines_acc(Seq::<char>::empty(), cur1) == seq![cur1]);
            assert(out.deep_view() =~~= out1.push(cur1));
            assert(out1 + seq![cur1] =~~= out1.push(cur1));
        }
    } else {
        proof {
            assert(lines_acc(Seq::<char>::empty(), cur@) == Seq::<Seq<char>>::empty());
            assert(out.deep_view() + Seq::<Seq<char>>::empty() =~~= out.deep_view());
        }
    }
    out
}

/// The characters after the last occurrence of `sep` in `t`; all of `t` if
/// it has none.
pub open spec fn after_last_sep(t: Seq<char>, sep: char) -> Seq<char>
    decreases t.len(),
{
    if t.len() == 0 {
        t
    } else if t.last() == sep {
        Seq::empty()
    } else {
        after_last_sep(t.drop_last(), sep).push(t.last())
    }
}

/// The suffix after the last separator is a split at `cut`.
pub proof fn lemma_after_last_sep(t: Seq<char>, sep: char, cut: int)
    requires
        0 <= cut <= t.len(),
        forall|j: int| cut <= j < t.len() ==> t[j] != sep,
        cut == 0 || t[cut - 1] == sep,
    ensures
        after_last_sep(t, sep) == t.skip(cut),
    decreases t.len(),
{
    if t.len() == 0 {
        assert(t.skip(0) =~= t);
    } else if t.last() == sep {
        assert(cut == t.len());
        assert(t.skip(cut) =~= Seq::<char>::empty());
    } else {
        assert(cut < t.len());
        lemma_after_last_sep(t.drop_last(), sep, cut);
        assert(t.drop_last().skip(cut).push(t.last()) =~= t.skip(cut));
    }
}

/// The characters after the last colon of `t`; all of `t` if it has none.
pub open spec fn after_last_colon(t: Seq<char>) -> Seq<char> {
    after_last_sep(t, ':')
}

/// The suffix after the last colon is a split at `cut`.
pub proof fn lemma_after_last_colon(t: Seq<char>, cut: int)
    requires
        0 <= cut <= t.len(),
        forall|j: int| cut <= j < t.len() ==> t[j] != ':',
        cut == 0 || t[cut - 1] == ':',
    ensures
        after_last_colon(t) == t.skip(cut),
{
    lemma_after_last_sep(t, ':', cut);
}

/// Every character of `s` is a decimal digit.
pub open spec fn all_digits(s: Seq<char>) -> bool {
    forall|i: int| 0 <= i < s.len() ==> is_digit(s[i])
}

/// What `str::parse::<u16>` accepts: an optional plus sign, then decimal
/// digits whose value fits.
pub open spec fn spec_parse_u16(s: Seq<char>) -> Option<u16> {
    let t = if s.len() > 0 && s[0] == '+' {
        s.drop_first()
    } else {
        s
    };
    if t.len() > 0 && all_digits(t) && digits_val(t) <= 65535 {
        Some(digits_val(t) as u16)
    } else {
        None
    }
}

/// Parses `v[from..to]` as a decimal `u16`, as `str::parse` would.
pub fn parse_u16_chars(v: &Vec<char>, from: usize, to: usize) -> (r: Option<u16>)
    requires
        from <= to <= v@.len(),
    ensures
        r == spec_parse_u16(v@.subrange(from as int, to as int)),
{
    let ghost s = v@.subrange(from as int, to as int);
    let mut start: usize = from;
    if from < to && v[from] == '+' {
        start = from + 1;
    }
    let ghost t = v@.subrange(start as int, to as int);
    proof {
        if s.len() > 0 && s[0] == '+' {
            assert(t =~= s.drop_first());
        } else {
            assert(t =~= s);
        }
    }
    if start == to {
        return None;
    }
    let mut acc: u32 = 0;
    let mut i: usize = start;
    while i < to
        invariant
            from <= start <= i <= to <= v@.len(),
            t == v@.subrange(start as int, to as int),
            s == v@.subrange(from as int, to as int),
            t == (if s.len() > 0 && s[0] == '+' {
                s.drop_first()
            } else {
                s
            }),
            forall|j: int| start <= j < i ==> is_digit(v@[j]),
            digits_val(t.take(i - start)) <= 65535 ==> acc == digits_val(t.take(i - start)),
            digits_val(t.take(i - start)) > 65535 ==> 65535 < acc <= 100000,
        decreases to - i,
    {
        let c = v[i];
        let u = c as u32;
        if !(48 <= u && u <= 57) {
            proof {
                let st = if s.len() > 0 && s[0] == '+' {
                    s.drop_first()
                } else {
                    s
                };
                assert(st == t);
                assert(t[i - start] == v@[i as int]);
                assert(!is_digit(t[i - start]));
                assert(!all_digits(t));
            }
            return None;
        }
        let d: u32 = u - 48;
        let raw: u32 = acc * 10 + d;
        let capped: u32 = if raw > 100000 {
            100000
        } else {
            raw
        };
        proof {
            let p = t.take(i - start);
            let q = t.take(i + 1 - start);
            assert(q.drop_last() =~= p);
            assert(q.last() == v@[i as int]);
            assert(digits_val(q) == digits_val(p) * 10 + digit_val(v@[i as int]));
        }
        acc = capped;
        i = i + 1;
    }
    proof {
        assert(t.take(to - start) =~= t);
        assert(all_digits(t));
    }
    if acc > 65535 {
        return None;
    }
    Some(acc as u16)
}

} // verus!
