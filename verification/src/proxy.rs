//! The proxy's decisions, apart from its I/O: which request bodies get the
//! breaker's note, which headers go upstream, where they go, and how the
//! numeric settings are read.
use vstd::prelude::*;
use vstd::string::StringSliceAdditionalSpecFns;
use crate::anthropic::{analyze, inject, spec_analyze_turns, spec_extract_turns, spec_inject, total_edits, total_reads};
use crate::assoc::{assoc_set, lemma_assoc_index_at, lemma_assoc_index_none};
use crate::intervention::Intervention;
use crate::json::Json;
use crate::policy::ThrashPolicy;
use crate::text::{ascii_lower_char, is_first_of, lemma_first_of_at, lemma_first_of_none, split_on, to_ascii_lower_char, to_chars};

verus! {

/// The beta header value that enables injecting `role: "system"` messages
/// mid-session without invalidating the prompt cache.
pub const MID_CONVERSATION_BETA: &'static str = "mid-conversation-system-2026-04-07";

/// The beta token as header bytes.
pub open spec fn beta_token() -> Seq<u8> {
    MID_CONVERSATION_BETA.spec_bytes()
}

/// One request header: its name and its raw value.
#[derive(Debug)]
pub struct Header {
    pub name: String,
    pub value: Vec<u8>,
}

impl View for Header {
    type V = (Seq<char>, Seq<u8>);

    open spec fn view(&self) -> (Seq<char>, Seq<u8>) {
        (self.name@, self.value@)
    }
}

/// Headers not copied upstream: hop-by-hop ones and those the HTTP client
/// sets itself.
pub open spec fn dropped_header(lower_name: Seq<char>) -> bool {
    lower_name == "host"@ || lower_name == "content-length"@ || lower_name == "connection"@
        || lower_name == "accept-encoding"@
}

/// A header value that reads as text: tabs and visible ASCII only.
pub open spec fn value_is_text(v: Seq<u8>) -> bool {
    forall|i: int| 0 <= i < v.len() ==> v[i] == 9 || (32 <= v[i] && v[i] < 127)
}

/// ASCII whitespace.
pub open spec fn is_ws_byte(b: u8) -> bool {
    (9 <= b && b <= 13) || b == 32
}

/// `v` without its leading whitespace.
pub open spec fn trim_start_bytes(v: Seq<u8>) -> Seq<u8>
    decreases v.len(),
{
    if v.len() > 0 && is_ws_byte(v[0]) { trim_start_bytes(v.drop_first()) } else { v }
}

/// `v` without its trailing whitespace.
pub open spec fn trim_end_bytes(v: Seq<u8>) -> Seq<u8>
    decreases v.len(),
{
    if v.len() > 0 && is_ws_byte(v.last()) { trim_end_bytes(v.drop_last()) } else { v }
}

/// The comma-separated tokens of a beta header, each trimmed.
pub open spec fn beta_pieces(v: Seq<u8>) -> Seq<Seq<u8>> {
    split_on(v, 44u8).map_values(|p: Seq<u8>| trim_end_bytes(trim_start_bytes(p)))
}

/// A header name in ASCII lowercase.
pub open spec fn ascii_lower(s: Seq<char>) -> Seq<char> {
    s.map_values(|c: char| ascii_lower_char(c))
}

/// Headers copied so far (by name, a later value replacing an earlier one)
/// and beta tokens collected so far.
pub type HeaderAcc = (Seq<(Seq<char>, Seq<u8>)>, Seq<Seq<u8>>);

/// One incoming header.
pub open spec fn header_step(acc: HeaderAcc, h: (Seq<char>, Seq<u8>)) -> HeaderAcc {
    let n = ascii_lower(h.0);
    if dropped_header(n) {
        acc
    } else if n == "anthropic-beta"@ {
        if value_is_text(h.1) { (acc.0, acc.1 + beta_pieces(h.1)) } else { acc }
    } else {
        (assoc_set(acc.0, h.0, h.1), acc.1)
    }
}

pub open spec fn headers_fold(hs: Seq<(Seq<char>, Seq<u8>)>) -> HeaderAcc
    decreases hs.len(),
{
    if hs.len() == 0 {
        (Seq::empty(), Seq::empty())
    } else {
        header_step(headers_fold(hs.drop_last()), hs.last())
    }
}

/// Parts joined by `sep`.
pub open spec fn join_bytes(parts: Seq<Seq<u8>>, sep: Seq<u8>) -> Seq<u8>
    decreases parts.len(),
{
    if parts.len() == 0 {
        Seq::empty()
    } else if parts.len() == 1 {
        parts[0]
    } else {
        join_bytes(parts.drop_last(), sep) + sep + parts.last()
    }
}

/// The headers forwarded upstream: the incoming ones without the dropped
/// ones, and the beta tokens (plus the mid-conversation token when asked,
/// unless present) merged into one `anthropic-beta` header.
pub open spec fn spec_forward_headers(hs: Seq<(Seq<char>, Seq<u8>)>, add_beta: bool) -> Seq<(Seq<char>, Seq<u8>)> {
    let (out, betas) = headers_fold(hs);
    let betas2 = if add_beta && !betas.contains(beta_token()) { betas.push(beta_token()) } else { betas };
    if betas2.len() > 0 {
        assoc_set(out, "anthropic-beta"@, join_bytes(betas2, seq![44u8, 32u8]))
    } else {
        out
    }
}

proof fn lemma_trim_start_bytes_at(s: Seq<u8>, a: int)
    requires
        0 <= a <= s.len(),
        forall|j: int| 0 <= j < a ==> is_ws_byte(s[j]),
        a == s.len() || !is_ws_byte(s[a]),
    ensures
        trim_start_bytes(s) == s.skip(a),
    decreases a,
{
    if a == 0 {
        assert(s.skip(0) =~= s);
    } else {
        let t = s.drop_first();
        assert forall|j: int| 0 <= j < a - 1 implies is_ws_byte(t[j]) by {
            assert(t[j] == s[j + 1]);
        }
        if a < s.len() {
            assert(t[a - 1] == s[a]);
        }
        lemma_trim_start_bytes_at(t, a - 1);
        assert(t.skip(a - 1) =~= s.skip(a));
    }
}

proof fn lemma_trim_end_bytes_at(s: Seq<u8>, b: int)
    requires
        0 <= b <= s.len(),
        forall|j: int| b <= j < s.len() ==> is_ws_byte(s[j]),
        b == 0 || !is_ws_byte(s[b - 1]),
    ensures
        trim_end_bytes(s) == s.take(b),
    decreases s.len() - b,
{
    if b == s.len() {
        assert(s.take(b) =~= s);
    } else {
        let t = s.drop_last();
        assert forall|j: int| b <= j < t.len() implies is_ws_byte(t[j]) by {
            assert(t[j] == s[j]);
        }
        if b > 0 {
            assert(t[b - 1] == s[b - 1]);
        }
        lemma_trim_end_bytes_at(t, b);
        assert(t.take(b) =~= s.take(b));
    }
}

fn ws_byte(b: u8) -> (r: bool)
    ensures
        r == is_ws_byte(b),
{
    (b >= 9 && b <= 13) || b == 32
}

/// The bytes of `v` from `lo` to `hi`.
fn slice_bytes(v: &Vec<u8>, lo: usize, hi: usize) -> (r: Vec<u8>)
    requires
        lo <= hi <= v@.len(),
    ensures
        r@ == v@.subrange(lo as int, hi as int),
{
    let mut r: Vec<u8> = Vec::new();
    let mut i = lo;
    while i < hi
        invariant
            lo <= i <= hi,
            hi <= v@.len(),
            r@ == v@.subrange(lo as int, i as int),
        decreases hi - i,
    {
        r.push(v[i]);
        i = i + 1;
        assert(r@ =~= v@.subrange(lo as int, i as int));
    }
    r
}

/// Trim ASCII whitespace from both ends.
fn trim_bytes(v: &Vec<u8>) -> (r: Vec<u8>)
    ensures
        r@ == trim_end_bytes(trim_start_bytes(v@)),
{
    let n = v.len();
    let mut a: usize = 0;
    while a < n && ws_byte(v[a])
        invariant
            a <= n,
            n == v@.len(),
            forall|j: int| 0 <= j < a ==> is_ws_byte(v@[j]),
        decreases n - a,
    {
        a = a + 1;
    }
    proof {
        lemma_trim_start_bytes_at(v@, a as int);
    }
    let mut b: usize = n;
    while b > a && ws_byte(v[b - 1])
        invariant
            a <= b <= n,
            n == v@.len(),
            forall|j: int| b <= j < n ==> is_ws_byte(v@[j]),
        decreases b,
    {
        b = b - 1;
    }
    let ghost t = v@.skip(a as int);
    proof {
        assert forall|j: int| b - a <= j < t.len() implies is_ws_byte(t[j]) by {
            assert(t[j] == v@[a + j]);
        }
        if b > a {
            assert(t[b - a - 1] == v@[b - 1]);
        }
        lemma_trim_end_bytes_at(t, b - a);
        assert(t.take(b - a) =~= v@.subrange(a as int, b as int));
    }
    slice_bytes(v, a, b)
}

/// Split bytes at every `x`, as `str::split` does.
fn split_bytes(v: &Vec<u8>, x: u8) -> (parts: Vec<Vec<u8>>)
    ensures
        parts@.map_values(|p: Vec<u8>| p@) == split_on(v@, x),
{
    let n = v.len();
    let mut out: Vec<Vec<u8>> = Vec::new();
    let mut start: usize = 0;
    assert(v@.skip(0) =~= v@);
    loop
        invariant
            start <= n,
            n == v@.len(),
            out@.map_values(|p: Vec<u8>| p@) + split_on(v@.skip(start as int), x) == split_on(v@, x),
        decreases n - start,
    {
        let ghost rest = v@.skip(start as int);
        let mut k = start;
        while k < n && v[k] != x
            invariant
                start <= k <= n,
                n == v@.len(),
                forall|j: int| start <= j < k ==> v@[j] != x,
            decreases n - k,
        {
            k = k + 1;
        }
        let piece = slice_bytes(v, start, k);
        let ghost before = out@.map_values(|p: Vec<u8>| p@);
        if k < n {
            proof {
                assert(is_first_of(rest, x, k - start)) by {
                    assert forall|j: int| 0 <= j < k - start implies rest[j] != x by {
                        assert(rest[j] == v@[start + j]);
                    }
                }
                lemma_first_of_at(rest, x, k - start);
                assert(rest.take(k - start) =~= piece@);
                assert(rest.skip(k - start + 1) =~= v@.skip(k + 1));
                assert(split_on(rest, x) == seq![piece@] + split_on(v@.skip(k + 1), x));
            }
            out.push(piece);
            proof {
                assert(out@.map_values(|p: Vec<u8>| p@) =~= before.push(piece@));
                assert(before + split_on(rest, x) =~= before.push(piece@) + split_on(v@.skip(k + 1), x));
            }
            start = k + 1;
        } else {
            proof {
                assert forall|j: int| 0 <= j < rest.len() implies rest[j] != x by {
                    assert(rest[j] == v@[start + j]);
                }
                lemma_first_of_none(rest, x);
                assert(rest =~= piece@);
                assert(split_on(rest, x) == seq![piece@]);
            }
            out.push(piece);
            proof {
                assert(out@.map_values(|p: Vec<u8>| p@) =~= before.push(piece@));
                assert(before + split_on(rest, x) =~= out@.map_values(|p: Vec<u8>| p@));
            }
            return out;
        }
    }
}

fn lower_name(name: &String) -> (r: String)
    ensures
        r@ == ascii_lower(name@),
{
    let cs = to_chars(name.as_str());
    let mut r = String::new();
    let n = cs.len();
    for i in 0..n
        invariant
            n == cs@.len(),
            cs@ == name@,
            r@ == ascii_lower(name@).take(i as int),
    {
        r.push(to_ascii_lower_char(cs[i]));
        assert(r@ =~= ascii_lower(name@).take(i + 1));
    }
    assert(ascii_lower(name@).take(n as int) =~= ascii_lower(name@));
    r
}

fn bytes_eq(a: &Vec<u8>, b: &Vec<u8>) -> (r: bool)
    ensures
        r == (a@ == b@),
{
    if a.len() != b.len() {
        return false;
    }
    let n = a.len();
    for i in 0..n
        invariant
            n == a@.len(),
            n == b@.len(),
            forall|j: int| 0 <= j < i ==> a@[j] == b@[j],
    {
        if a[i] != b[i] {
            return false;
        }
    }
    assert(a@ =~= b@);
    true
}

fn value_text(v: &Vec<u8>) -> (r: bool)
    ensures
        r == value_is_text(v@),
{
    let n = v.len();
    for i in 0..n
        invariant
            n == v@.len(),
            forall|j: int| 0 <= j < i ==> v@[j] == 9 || (32 <= v@[j] && v@[j] < 127),
    {
        let b = v[i];
        if !(b == 9 || (b >= 32 && b < 127)) {
            return false;
        }
    }
    true
}

fn literal_bytes(s: &str) -> (r: Vec<u8>)
    ensures
        r@ == s.spec_bytes(),
{
    let b = s.as_bytes();
    let mut r: Vec<u8> = Vec::new();
    let n = b.len();
    for i in 0..n
        invariant
            n == b@.len(),
            r@ == b@.take(i as int),
    {
        r.push(b[i]);
        assert(r@ =~= b@.take(i + 1));
    }
    assert(b@.take(n as int) =~= b@);
    r
}

/// Set the header `name` to `value`, replacing its first entry in place.
fn insert_header(out: &mut Vec<Header>, name: &String, value: Vec<u8>)
    ensures
        final(out)@.map_values(|h: Header| h@) == assoc_set(old(out)@.map_values(|h: Header| h@), name@, value@),
{
    let ghost ov = out@.map_values(|h: Header| h@);
    let n = out.len();
    for i in 0..n
        invariant
            n == out@.len(),
            ov == out@.map_values(|h: Header| h@),
            ov == old(out)@.map_values(|h: Header| h@),
            forall|j: int| 0 <= j < i ==> ov[j].0 != name@,
    {
        if out[i].name == *name {
            proof {
                lemma_assoc_index_at(ov, name@, i as int);
            }
            let ghost vv = value@;
            out[i].value = value;
            assert(out@.map_values(|h: Header| h@) =~= ov.update(i as int, (name@, vv)));
            return;
        }
    }
    proof {
        lemma_assoc_index_none(ov, name@);
    }
    let ghost vv = value@;
    out.push(Header { name: name.clone(), value });
    assert(out@.map_values(|h: Header| h@) =~= ov.push((name@, vv)));
}

fn join_with_comma(parts: &Vec<Vec<u8>>) -> (r: Vec<u8>)
    ensures
        r@ == join_bytes(parts@.map_values(|p: Vec<u8>| p@), seq![44u8, 32u8]),
{
    let ghost pv = parts@.map_values(|p: Vec<u8>| p@);
    let mut r: Vec<u8> = Vec::new();
    let n = parts.len();
    for i in 0..n
        invariant
            n == parts@.len(),
            pv == parts@.map_values(|p: Vec<u8>| p@),
            r@ == join_bytes(pv.take(i as int), seq![44u8, 32u8]),
    {
        let ghost before = r@;
        if i > 0 {
            r.push(44u8);
            r.push(32u8);
        }
        let p = &parts[i];
        let m = p.len();
        for k in 0..m
            invariant
                m == p@.len(),
                r@ == (if i > 0 { before + seq![44u8, 32u8] } else { before }) + p@.take(k as int),
        {
            r.push(p[k]);
            assert(r@ =~= (if i > 0 { before + seq![44u8, 32u8] } else { before }) + p@.take(k + 1));
        }
        proof {
            assert(p@.take(m as int) =~= p@);
            let t = pv.take(i + 1);
            assert(t.drop_last() =~= pv.take(i as int));
            assert(t.last() == p@);
            if i == 0 {
                assert(t =~= seq![p@]);
                assert(before =~= Seq::<u8>::empty());
                assert(r@ =~= p@);
            }
        }
    }
    assert(pv.take(n as int) =~= pv);
    r
}

fn has_piece(betas: &Vec<Vec<u8>>, token: &Vec<u8>) -> (r: bool)
    ensures
        r == betas@.map_values(|p: Vec<u8>| p@).contains(token@),
{
    let ghost bv = betas@.map_values(|p: Vec<u8>| p@);
    let n = betas.len();
    for i in 0..n
        invariant
            n == betas@.len(),
            bv == betas@.map_values(|p: Vec<u8>| p@),
            forall|j: int| 0 <= j < i ==> bv[j] != token@,
    {
        if bytes_eq(&betas[i], token) {
            assert(bv[i as int] == token@);
            return true;
        }
    }
    false
}

/// The headers to forward upstream; `add_beta` asks for the mid-conversation
/// beta token to be present.
pub fn forward_headers(incoming: &Vec<Header>, add_beta: bool) -> (out: Vec<Header>)
    ensures
        out@.map_values(|h: Header| h@) == spec_forward_headers(incoming@.map_values(|h: Header| h@), add_beta),
{
    let ghost hv = incoming@.map_values(|h: Header| h@);
    let mut out: Vec<Header> = Vec::new();
    let mut betas: Vec<Vec<u8>> = Vec::new();
    let n = incoming.len();
    assert(hv.take(0) =~= Seq::<(Seq<char>, Seq<u8>)>::empty());
    assert(out@.map_values(|h: Header| h@) =~= Seq::<(Seq<char>, Seq<u8>)>::empty());
    assert(betas@.map_values(|p: Vec<u8>| p@) =~= Seq::<Seq<u8>>::empty());
    for i in 0..n
        invariant
            n == incoming@.len(),
            hv == incoming@.map_values(|h: Header| h@),
            headers_fold(hv.take(i as int)) == (out@.map_values(|h: Header| h@), betas@.map_values(|p: Vec<u8>| p@)),
    {
        assert(hv.take(i + 1).drop_last() =~= hv.take(i as int));
        assert(hv.take(i + 1).last() == incoming@[i as int]@);
        let h = &incoming[i];
        let ln = lower_name(&h.name);
        if ln == "host".to_owned() || ln == "content-length".to_owned() || ln == "connection".to_owned()
            || ln == "accept-encoding".to_owned() {
        } else if ln == "anthropic-beta".to_owned() {
            if value_text(&h.value) {
                let parts = split_bytes(&h.value, 44u8);
                let ghost b0 = betas@.map_values(|p: Vec<u8>| p@);
                let ghost pv = parts@.map_values(|p: Vec<u8>| p@);
                let m = parts.len();
                for k in 0..m
                    invariant
                        m == parts@.len(),
                        pv == parts@.map_values(|p: Vec<u8>| p@),
                        betas@.map_values(|p: Vec<u8>| p@) == b0 + pv.take(k as int).map_values(
                            |p: Seq<u8>| trim_end_bytes(trim_start_bytes(p)),
                        ),
                {
                    let t = trim_bytes(&parts[k]);
                    let ghost before = betas@.map_values(|p: Vec<u8>| p@);
                    betas.push(t);
                    assert(betas@.map_values(|p: Vec<u8>| p@) =~= before.push(t@));
                    assert(pv.take(k + 1).map_values(|p: Seq<u8>| trim_end_bytes(trim_start_bytes(p)))
                        =~= pv.take(k as int).map_values(|p: Seq<u8>| trim_end_bytes(trim_start_bytes(p))).push(t@));
                }
                assert(pv.take(m as int) =~= pv);
            }
        } else {
            insert_header(&mut out, &h.name, h.value.clone());
        }
    }
    assert(hv.take(n as int) =~= hv);
    let token = literal_bytes(MID_CONVERSATION_BETA);
    if add_beta && !has_piece(&betas, &token) {
        let ghost before = betas@.map_values(|p: Vec<u8>| p@);
        let ghost tv = token@;
        betas.push(token);
        assert(betas@.map_values(|p: Vec<u8>| p@) =~= before.push(tv));
    }
    if betas.len() > 0 {
        let joined = join_with_comma(&betas);
        insert_header(&mut out, &"anthropic-beta".to_owned(), joined);
    }
    out
}

/// `s` without trailing `c` characters, as `str::trim_end_matches` gives it.
pub open spec fn trim_trailing(s: Seq<char>, c: char) -> Seq<char>
    decreases s.len(),
{
    if s.len() > 0 && s.last() == c { trim_trailing(s.drop_last(), c) } else { s }
}

/// The upstream URL of a request path.
pub fn upstream_url(upstream: &str, path: &str) -> (r: String)
    ensures
        r@ == trim_trailing(upstream@, '/') + path@,
{
    let cs = to_chars(upstream);
    let mut end = cs.len();
    assert(cs@ =~= cs@.take(cs@.len() as int));
    while end > 0 && cs[end - 1] == '/'
        invariant
            end <= cs@.len(),
            trim_trailing(cs@, '/') == trim_trailing(cs@.take(end as int), '/'),
        decreases end,
    {
        assert(cs@.take(end as int).drop_last() =~= cs@.take(end - 1));
        end = end - 1;
    }
    let mut r = String::new();
    for i in 0..end
        invariant
            end <= cs@.len(),
            r@ == cs@.take(i as int),
    {
        r.push(cs[i]);
        assert(r@ =~= cs@.take(i + 1));
    }
    r.append(path);
    r
}

pub open spec fn is_digit(c: char) -> bool {
    '0' <= c && c <= '9'
}

pub open spec fn digit_value(c: char) -> nat {
    ((c as int) - ('0' as int)) as nat
}

/// The number a string of decimal digits denotes.
pub open spec fn digits_value(d: Seq<char>) -> nat
    decreases d.len(),
{
    if d.len() == 0 { 0 } else { digits_value(d.drop_last()) * 10 + digit_value(d.last()) }
}

/// `s` without one leading `+`.
pub open spec fn unsigned_part(s: Seq<char>) -> Seq<char> {
    if s.len() > 0 && s[0] == '+' { s.drop_first() } else { s }
}

pub open spec fn all_digits(d: Seq<char>) -> bool {
    forall|i: int| 0 <= i < d.len() ==> is_digit(#[trigger] d[i])
}

/// What `str::parse::<u32>` accepts: an optional `+`, then one or more
/// decimal digits denoting a value that fits in 32 bits.
pub open spec fn spec_parse_u32(s: Seq<char>) -> Option<u32> {
    let d = unsigned_part(s);
    if d.len() > 0 && all_digits(d) && digits_value(d) <= u32::MAX {
        Some(digits_value(d) as u32)
    } else {
        None
    }
}

proof fn lemma_digits_prefix(d: Seq<char>, i: int)
    requires
        0 <= i <= d.len(),
    ensures
        digits_value(d.take(i)) <= digits_value(d),
    decreases d.len() - i,
{
    if i < d.len() {
        lemma_digits_prefix(d, i + 1);
        assert(d.take(i + 1).drop_last() =~= d.take(i));
    } else {
        assert(d.take(i) =~= d);
    }
}

/// Parse a decimal `u32` as `str::parse` does.
pub fn parse_u32(s: &str) -> (r: Option<u32>)
    ensures
        r == spec_parse_u32(s@),
{
    let cs = to_chars(s);
    let n = cs.len();
    let start: usize = if n > 0 && cs[0] == '+' { 1 } else { 0 };
    let ghost d = unsigned_part(s@);
    assert(d =~= cs@.skip(start as int));
    if start == n {
        assert(d.len() == 0);
        return None;
    }
    let mut acc: u64 = 0;
    let mut i = start;
    let mut overflow = false;
    while i < n
        invariant
            start <= i <= n,
            n == cs@.len(),
            d == cs@.skip(start as int),
            d == unsigned_part(s@),
            forall|j: int| start <= j < i ==> is_digit(cs@[j]),
            !overflow ==> acc == digits_value(d.take(i - start)) && acc <= u32::MAX,
            overflow ==> digits_value(d.take(i - start)) > u32::MAX,
        decreases n - i,
    {
        let c = cs[i];
        if !(c >= '0' && c <= '9') {
            assert(d[i - start] == c);
            assert(!is_digit(d[i - start]));
            assert(!all_digits(d));
            return None;
        }
        assert(d.take(i - start + 1).drop_last() =~= d.take(i - start));
        assert(d.take(i - start + 1).last() == c);
        if !overflow {
            let v = acc * 10 + ((c as u32) - ('0' as u32)) as u64;
            if v > 4294967295u64 {
                overflow = true;
            } else {
                acc = v;
            }
        } else {
            assert(digits_value(d.take(i - start + 1)) >= digits_value(d.take(i - start)));
        }
        i = i + 1;
    }
    assert(d.take(n - start) =~= d);
    assert forall|j: int| 0 <= j < d.len() implies is_digit(d[j]) by {
        assert(d[j] == cs@[start + j]);
    }
    if overflow {
        None
    } else {
        Some(acc as u32)
    }
}

/// A setting's value: the parsed number, or `default` when the setting is
/// absent or not a `u32`.
pub fn u32_or(value: Option<&str>, default: u32) -> (r: u32)
    ensures
        r == match value {
            Some(v) => match spec_parse_u32(v@) {
                Some(x) => x,
                None => default,
            },
            None => default,
        },
{
    match value {
        Some(v) => match parse_u32(v) {
            Some(x) => x,
            None => default,
        },
        None => default,
    }
}

/// Decide what to send upstream for a `/v1/messages` body: the body with the
/// breaker's note appended, with the intervention, when its last turn trips;
/// `None` (forward the body unchanged) otherwise.
pub fn intercept(body: Json, policy: ThrashPolicy) -> (r: Option<(Json, Intervention)>)
    ensures
        ({
            let ts = spec_extract_turns(body@);
            if total_edits(ts) <= u32::MAX && total_reads(ts) <= u32::MAX {
                match r {
                    Some((b, i)) => spec_analyze_turns(ts, policy) == Some(i@) && b@ == spec_inject(body@, i.system_message@),
                    None => spec_analyze_turns(ts, policy) is None,
                }
            } else {
                r is None
            }
        }),
{
    match analyze(&body, policy) {
        Some(interv) => {
            let b = inject(body, &interv);
            Some((b, interv))
        },
        None => None,
    }
}

} // verus!
