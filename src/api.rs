//! The rules of the HTTP facade that are not transport: how query parameters read,
//! which cache policy and status a result gets, and how stream lists are sorted.
use vstd::prelude::*;
use vstd::string::StringSliceAdditionalSpecFns;
use vstd::utf8::encode_utf8_decode_utf8;
use vstd::string::StrSliceExecFns;
use vstd::utf8::encode_utf8;
use vstd::multiset::Multiset;
use vstd::seq_lib::{to_multiset_build, to_multiset_insert, to_multiset_len};
use crate::db::{bytes_equal, Error, ExpectedRevision};
use crate::server::Stream;

verus! {

/// The byte of an ASCII decimal digit.
pub open spec fn is_digit(b: u8) -> bool {
    48 <= b <= 57
}

/// The value of a run of decimal digits, most significant first.
pub open spec fn digits_value(d: Seq<u8>) -> int
    decreases d.len(),
{
    if d.len() == 0 {
        0
    } else {
        digits_value(d.drop_last()) * 10 + (d.last() - 48)
    }
}

/// The digits of a number's text, after an optional `+`.
pub open spec fn unsigned_digits(b: Seq<u8>) -> Seq<u8> {
    if b.len() > 0 && b[0] == 43 {
        b.skip(1)
    } else {
        b
    }
}

/// The `u64` that a text holds, read as Rust reads an unsigned integer: an optional
/// `+`, then one or more decimal digits, of a value that fits.
pub open spec fn u64_of_text(b: Seq<u8>) -> Option<u64> {
    let d = unsigned_digits(b);
    if d.len() > 0 && (forall|i: int| 0 <= i < d.len() ==> is_digit(#[trigger] d[i]))
        && digits_value(d) <= u64::MAX {
        Some(digits_value(d) as u64)
    } else {
        None
    }
}

/// A run of digits is worth at least any of its prefixes.
proof fn lemma_digits_prefix(d: Seq<u8>, j: int)
    requires
        0 <= j <= d.len(),
        forall|i: int| 0 <= i < d.len() ==> is_digit(#[trigger] d[i]),
    ensures
        0 <= digits_value(d.take(j)) <= digits_value(d),
    decreases d.len(),
{
    if j == d.len() {
        assert(d.take(j) =~= d);
        if d.len() > 0 {
            lemma_digits_prefix(d.drop_last(), j - 1);
            assert(d.drop_last().take(j - 1) =~= d.drop_last());
        }
    } else {
        let p = d.drop_last();
        lemma_digits_prefix(p, j);
        assert(d.take(j) =~= p.take(j));
        lemma_digits_prefix(p, p.len() as int);
        assert(p.take(p.len() as int) =~= p);
    }
}

/// Reads a `u64` from its decimal text, as Rust's `u64::from_str` does.
pub fn parse_u64(s: &str) -> (r: Option<u64>)
    ensures
        r == u64_of_text(s.spec_bytes()),
{
    let b = s.as_bytes();
    let start: usize = if b.len() > 0 && b[0] == 43 { 1 } else { 0 };
    let ghost d = unsigned_digits(b@);
    assert(d =~= b@.skip(start as int));
    if start == b.len() {
        return None;
    }
    let mut v: u64 = 0;
    let mut i: usize = start;
    while i < b.len()
        invariant
            start <= i <= b@.len(),
            b@ == s.spec_bytes(),
            d == unsigned_digits(b@),
            d == b@.skip(start as int),
            d.len() > 0,
            forall|k: int| 0 <= k < i - start ==> is_digit(#[trigger] d[k]),
            v == digits_value(d.take(i - start)),
        decreases b@.len() - i,
    {
        let c = b[i];
        assert(d[i - start] == c);
        if c < 48 || c > 57 {
            assert(!is_digit(d[i - start]));
            return None;
        }
        let digit = (c - 48) as u64;
        assert(d.take(i - start + 1).drop_last() =~= d.take(i - start));
        if v > (u64::MAX - digit) / 10 {
            proof {
                assert(v * 10 + digit > u64::MAX) by (nonlinear_arith)
                    requires
                        v > (u64::MAX - digit) / 10,
                        digit <= 9,
                ;
                assert(d.take(i - start + 1).last() == c);
                assert(digits_value(d.take(i - start + 1)) == v * 10 + digit);
                if forall|k: int| 0 <= k < d.len() ==> is_digit(#[trigger] d[k]) {
                    lemma_digits_prefix(d, i - start + 1);
                }
            }
            return None;
        }
        assert(v * 10 + digit <= u64::MAX) by (nonlinear_arith)
            requires
                v <= (u64::MAX - digit) / 10,
                digit <= 9,
        ;
        v = v * 10 + digit;
        i += 1;
    }
    assert(d.take(i - start) =~= d);
    Some(v)
}

/// Whether two texts are equal.
pub fn text_is(s: &str, t: &str) -> (r: bool)
    ensures
        r == (s@ == t@),
{
    let r = bytes_equal(s.as_bytes(), t.as_bytes());
    proof {
        encode_utf8_decode_utf8(s@);
        encode_utf8_decode_utf8(t@);
    }
    r
}

/// The expected revision that a query parameter names: `any`, `no-stream`,
/// `stream-exists`, or a revision number.
pub open spec fn expected_revision_of(s: &str) -> Option<ExpectedRevision> {
    if s@ == "any"@ {
        Some(ExpectedRevision::Any)
    } else if s@ == "no-stream"@ {
        Some(ExpectedRevision::NoStream)
    } else if s@ == "stream-exists"@ {
        Some(ExpectedRevision::StreamExists)
    } else {
        match u64_of_text(s.spec_bytes()) {
            Some(n) => Some(ExpectedRevision::Exact(n)),
            None => None,
        }
    }
}

/// Reads the `expected_revision` query parameter; `None` for a text that is neither a
/// token nor a revision number.
pub fn parse_expected_revision(s: &str) -> (r: Option<ExpectedRevision>)
    ensures
        r == expected_revision_of(s),
{
    if text_is(s, "any") {
        Some(ExpectedRevision::Any)
    } else if text_is(s, "no-stream") {
        Some(ExpectedRevision::NoStream)
    } else if text_is(s, "stream-exists") {
        Some(ExpectedRevision::StreamExists)
    } else {
        match parse_u64(s) {
            Some(n) => Some(ExpectedRevision::Exact(n)),
            None => None,
        }
    }
}

/// The index of the event at `revision`: revisions count from 1, so revision 0 names
/// no event.
pub fn revision_index(revision: u64) -> (r: Option<u64>)
    ensures
        r == if revision == 0 { None } else { Some((revision - 1) as u64) },
{
    if revision == 0 {
        None
    } else {
        Some(revision - 1)
    }
}

/// The page offset when the query names none or an unreadable one.
pub const DEFAULT_PAGE_OFFSET: u64 = 0;

/// The page size when the query names none or an unreadable one.
pub const DEFAULT_PAGE_LIMIT: u64 = 50;

/// The largest page size served.
pub const MAX_PAGE_LIMIT: u64 = 1000;

/// The number a query parameter gives, or `default` when it is absent or unreadable.
pub open spec fn param_or(p: Option<&str>, default: u64) -> u64 {
    match p {
        Some(s) => match u64_of_text(s.spec_bytes()) {
            Some(n) => n,
            None => default,
        },
        None => default,
    }
}

fn read_param(p: Option<&str>, default: u64) -> (r: u64)
    ensures
        r == param_or(p, default),
{
    match p {
        Some(s) => match parse_u64(s) {
            Some(n) => n,
            None => default,
        },
        None => default,
    }
}

/// The page of events that `page[offset]` and `page[limit]` ask for: offset 0 and
/// limit 50 by default, the limit at most 1000.
pub fn page_bounds(offset: Option<&str>, limit: Option<&str>) -> (r: (u64, usize))
    ensures
        r.0 == param_or(offset, DEFAULT_PAGE_OFFSET),
        r.1 == if param_or(limit, DEFAULT_PAGE_LIMIT) < MAX_PAGE_LIMIT {
            param_or(limit, DEFAULT_PAGE_LIMIT)
        } else {
            MAX_PAGE_LIMIT
        },
{
    let start = read_param(offset, DEFAULT_PAGE_OFFSET);
    let wanted = read_param(limit, DEFAULT_PAGE_LIMIT);
    let lim: u64 = if wanted < MAX_PAGE_LIMIT { wanted } else { MAX_PAGE_LIMIT };
    (start, lim as usize)
}

/// Cache policy of things that never change once written.
pub const CACHE_IMMUTABLE: &'static str = "max-age=31536000, immutable";

/// Cache policy of things that may still change.
pub const CACHE_NONE: &'static str = "no-cache";

/// The cache policy of a page of events: a full page never changes, a partial one may
/// still grow.
pub fn page_cache_control(returned: usize, limit: usize) -> (r: &'static str)
    ensures
        r@ == if returned == limit { CACHE_IMMUTABLE@ } else { CACHE_NONE@ },
{
    if returned == limit {
        CACHE_IMMUTABLE
    } else {
        CACHE_NONE
    }
}

impl Error {
    /// The HTTP status that the error is answered with.
    pub fn status_code(&self) -> (r: u16)
        ensures
            r == match *self {
                Error::RevisionMismatch | Error::SourceIdConflict | Error::Stopped => 409u16,
                _ => 500u16,
            },
    {
        match self {
            Error::RevisionMismatch | Error::SourceIdConflict | Error::Stopped => 409,
            _ => 500,
        }
    }
}

impl crate::server::Error {
    /// The HTTP status that the error is answered with.
    pub fn status_code(&self) -> (r: u16)
        ensures
            r == 404,
    {
        404
    }
}

/// The field that a list of streams is sorted by.
#[derive(Clone, Copy, Debug, PartialEq, Eq, Structural)]
pub enum SortField {
    Id,
    Usage,
    Revision,
    LastModified,
}

/// How a list of streams is sorted.
#[derive(Clone, Copy, Debug, PartialEq, Eq, Structural)]
pub struct SortOrder {
    pub field: SortField,
    pub descending: bool,
}

/// The field that a sort key names.
pub open spec fn sort_field_of(name: Seq<char>) -> Option<SortField> {
    if name == "id"@ {
        Some(SortField::Id)
    } else if name == "usage"@ {
        Some(SortField::Usage)
    } else if name == "revision"@ {
        Some(SortField::Revision)
    } else if name == "last_modified"@ {
        Some(SortField::LastModified)
    } else {
        None
    }
}

/// The order that the `sort` query parameter names: a field, descending when it is
/// prefixed with `-`.
pub open spec fn sort_order_of(s: Seq<char>) -> Option<SortOrder> {
    if s.len() > 0 && s[0] == '-' {
        match sort_field_of(s.skip(1)) {
            Some(f) => Some(SortOrder { field: f, descending: true }),
            None => None,
        }
    } else {
        match sort_field_of(s) {
            Some(f) => Some(SortOrder { field: f, descending: false }),
            None => None,
        }
    }
}

fn sort_field(name: &str) -> (r: Option<SortField>)
    ensures
        r == sort_field_of(name@),
{
    if text_is(name, "id") {
        Some(SortField::Id)
    } else if text_is(name, "usage") {
        Some(SortField::Usage)
    } else if text_is(name, "revision") {
        Some(SortField::Revision)
    } else if text_is(name, "last_modified") {
        Some(SortField::LastModified)
    } else {
        None
    }
}

/// Reads the `sort` query parameter; `None` for a key that names no field.
pub fn parse_sort(s: &str) -> (r: Option<SortOrder>)
    ensures
        r == sort_order_of(s@),
{
    let n = s.unicode_len();
    let descending = n > 0 && s.get_char(0) == '-';
    let name = if descending { s.substring_char(1, n) } else { s };
    assert(descending ==> name@ =~= s@.skip(1));
    match sort_field(name) {
        Some(field) => Some(SortOrder { field, descending }),
        None => None,
    }
}

/// Byte strings in lexicographic order, as Rust orders strings.
pub open spec fn lex_le(a: Seq<u8>, b: Seq<u8>) -> bool
    decreases a.len(),
{
    if a.len() == 0 {
        true
    } else if b.len() == 0 {
        false
    } else if a[0] != b[0] {
        a[0] < b[0]
    } else {
        lex_le(a.skip(1), b.skip(1))
    }
}

proof fn lemma_lex_total(a: Seq<u8>, b: Seq<u8>)
    ensures
        lex_le(a, b) || lex_le(b, a),
    decreases a.len(),
{
    if a.len() > 0 && b.len() > 0 && a[0] == b[0] {
        lemma_lex_total(a.skip(1), b.skip(1));
    }
}

fn bytes_le(a: &[u8], b: &[u8]) -> (r: bool)
    ensures
        r == lex_le(a@, b@),
{
    let mut i: usize = 0;
    assert(a@.skip(0) =~= a@ && b@.skip(0) =~= b@);
    while i < a.len() && i < b.len()
        invariant
            i <= a@.len(),
            i <= b@.len(),
            lex_le(a@, b@) == lex_le(a@.skip(i as int), b@.skip(i as int)),
        decreases a@.len() - i,
    {
        if a[i] != b[i] {
            return a[i] < b[i];
        }
        assert(a@.skip(i as int).skip(1) =~= a@.skip(i + 1));
        assert(b@.skip(i as int).skip(1) =~= b@.skip(i + 1));
        i += 1;
    }
    i == a.len()
}

/// Whether stream `a` may come before stream `b` when sorted ascending by `field`.
pub open spec fn key_le(field: SortField, a: Stream, b: Stream) -> bool {
    match field {
        SortField::Id => lex_le(encode_utf8(a.id@), encode_utf8(b.id@)),
        SortField::Usage => a.usage <= b.usage,
        SortField::Revision => a.revision <= b.revision,
        SortField::LastModified => a.last_modified <= b.last_modified,
    }
}

/// Whether stream `a` may come before stream `b` in the order `o`.
pub open spec fn in_order(o: SortOrder, a: Stream, b: Stream) -> bool {
    if o.descending {
        key_le(o.field, b, a)
    } else {
        key_le(o.field, a, b)
    }
}

proof fn lemma_order_total(o: SortOrder, a: Stream, b: Stream)
    ensures
        in_order(o, a, b) || in_order(o, b, a),
{
    lemma_lex_total(encode_utf8(a.id@), encode_utf8(b.id@));
}

fn stream_before(o: SortOrder, a: &Stream, b: &Stream) -> (r: bool)
    ensures
        r == in_order(o, *a, *b),
{
    let (x, y) = if o.descending { (b, a) } else { (a, b) };
    match o.field {
        SortField::Id => bytes_le(x.id.as_str().as_bytes(), y.id.as_str().as_bytes()),
        SortField::Usage => x.usage <= y.usage,
        SortField::Revision => x.revision <= y.revision,
        SortField::LastModified => x.last_modified <= y.last_modified,
    }
}

/// Where `s` goes in the sorted list `out`: before the first stream that it may come
/// before, or at the end.
fn insert_position(o: SortOrder, s: &Stream, out: &Vec<Stream>) -> (k: usize)
    ensures
        k <= out@.len(),
        forall|j: int| 0 <= j < k ==> !in_order(o, *s, #[trigger] out@[j]),
        k < out@.len() ==> in_order(o, *s, out@[k as int]),
{
    let mut k: usize = 0;
    while k < out.len()
        invariant
            k <= out@.len(),
            forall|j: int| 0 <= j < k ==> !in_order(o, *s, #[trigger] out@[j]),
        decreases out@.len() - k,
    {
        if stream_before(o, s, &out[k]) {
            return k;
        }
        k += 1;
    }
    k
}

/// Each stream of the list may come before the next in the order `o`.
pub open spec fn sorted_by(o: SortOrder, s: Seq<Stream>) -> bool {
    forall|i: int| 0 <= i < s.len() - 1 ==> in_order(o, #[trigger] s[i], s[i + 1])
}

/// Sorts a list of streams in the order `o`.
pub fn sort_streams(streams: &mut Vec<Stream>, o: SortOrder)
    ensures
        final(streams)@.to_multiset() == old(streams)@.to_multiset(),
        sorted_by(o, final(streams)@),
{
    broadcast use vstd::multiset::group_multiset_axioms;

    let mut out: Vec<Stream> = Vec::new();
    proof {
        to_multiset_len(out@);
        assert(out@.to_multiset().add(streams@.to_multiset()) =~= streams@.to_multiset());
    }
    while streams.len() > 0
        invariant
            sorted_by(o, out@),
            out@.to_multiset().add(streams@.to_multiset()) == old(streams)@.to_multiset(),
        decreases streams@.len(),
    {
        let ghost before = streams@;
        let s = match streams.pop() {
            Some(s) => s,
            None => { return; },
        };
        proof {
            assert(before =~= streams@.push(s));
            to_multiset_build(streams@, s);
        }
        let k = insert_position(o, &s, &out);
        let ghost prev = out@;
        proof {
            if k > 0 {
                lemma_order_total(o, s, prev[k - 1]);
            }
            to_multiset_insert(prev, k as int, s);
        }
        out.insert(k, s);
        proof {
            assert forall|i: int| 0 <= i < out@.len() - 1 implies in_order(o, #[trigger] out@[i], out@[i + 1]) by {
                if i + 1 < k {
                    assert(out@[i] == prev[i] && out@[i + 1] == prev[i + 1]);
                } else if i + 1 == k {
                    assert(out@[i] == prev[k - 1]);
                } else if i == k {
                } else {
                    assert(out@[i] == prev[i - 1] && out@[i + 1] == prev[i]);
                }
            }
            assert(out@.to_multiset().add(streams@.to_multiset()) =~= old(streams)@.to_multiset());
        }
    }
    proof {
        to_multiset_len(streams@);
        assert(streams@.to_multiset() =~= Multiset::empty());
        assert(out@.to_multiset().add(streams@.to_multiset()) =~= out@.to_multiset());
    }
    *streams = out;
}

} // verus!
