//! Federation labels: the short name under which a federation's client is kept.
//!
//! A federation is given by its guardians, each a peer id and a websocket URL. The
//! label is computed from a canonical form of that list, so that configs that differ
//! only in the order of the guardians or in how the URLs are spelled get one label:
//! the URLs are normalised, the guardians sorted by URL (stably), the list written as
//! compact JSON `{"members":[[id,"url"],...]}`, hashed with SHA-256, and the first six
//! bytes of the digest written in lower-case hex.

use vstd::prelude::*;
use vstd::utf8::*;
use vstd::string::StringSliceAdditionalSpecFns;

use crate::database::bytes_lt;
use crate::hex::{hex_lower, hex_lower_bytes};
use crate::text::{ascii_chars_of, ascii_string};

verus! {

/// A guardian as the label computation sees it: its peer id and its URL.
pub type Member = (u16, Seq<char>);

/// The serialization that the `url` crate gives the URL `s`, or `None` where it does
/// not parse as a URL.
pub uninterp spec fn url_serialization(s: Seq<char>) -> Option<Seq<char>>;

/// The SHA-256 digest of `data`.
pub uninterp spec fn sha256(data: Seq<u8>) -> Seq<u8>;

/// The JSON escape of one character, as serde_json writes it inside a string.
pub open spec fn json_escape_char(c: char) -> Seq<char> {
    if c == '"' {
        seq!['\\', '"']
    } else if c == '\\' {
        seq!['\\', '\\']
    } else if c == '\u{8}' {
        seq!['\\', 'b']
    } else if c == '\t' {
        seq!['\\', 't']
    } else if c == '\n' {
        seq!['\\', 'n']
    } else if c == '\u{c}' {
        seq!['\\', 'f']
    } else if c == '\r' {
        seq!['\\', 'r']
    } else if (c as u32) < 0x20 {
        seq!['\\', 'u', '0', '0'] + hex_lower(seq![c as u8])
    } else {
        seq![c]
    }
}

/// The escaped characters of `s`.
pub open spec fn json_escape(s: Seq<char>) -> Seq<char>
    decreases s.len(),
{
    if s.len() == 0 {
        Seq::empty()
    } else {
        json_escape(s.drop_last()) + json_escape_char(s.last())
    }
}

/// A JSON string literal holding `s`.
pub open spec fn json_string(s: Seq<char>) -> Seq<char> {
    seq!['"'] + json_escape(s) + seq!['"']
}

/// The decimal digits of `n`, as ASCII bytes.
pub open spec fn decimal(n: nat) -> Seq<u8>
    decreases n,
{
    if n < 10 {
        seq![(48 + n) as u8]
    } else {
        decimal(n / 10).push((48 + n % 10) as u8)
    }
}

/// One guardian in JSON: `[id,"url"]`.
pub open spec fn member_json(m: Member) -> Seq<u8> {
    seq![91u8] + decimal(m.0 as nat) + seq![44u8] + encode_utf8(json_string(m.1)) + seq![93u8]
}

/// The guardians in JSON, separated by commas.
pub open spec fn members_json(ms: Seq<Member>) -> Seq<u8>
    decreases ms.len(),
{
    if ms.len() == 0 {
        Seq::empty()
    } else if ms.len() == 1 {
        member_json(ms[0])
    } else {
        members_json(ms.drop_last()) + seq![44u8] + member_json(ms.last())
    }
}

/// The opening `{"members":[` of a federation config.
pub open spec fn json_open() -> Seq<u8> {
    seq![123u8, 34, 109, 101, 109, 98, 101, 114, 115, 34, 58, 91]
}

/// The closing `]}` of a federation config.
pub open spec fn json_close() -> Seq<u8> {
    seq![93u8, 125]
}

/// A federation config in compact JSON: `{"members":[[id,"url"],...]}`.
pub open spec fn connect_json(ms: Seq<Member>) -> Seq<u8> {
    json_open() + members_json(ms) + json_close()
}

/// The key by which guardians are sorted: the bytes of the URL, compared as strings
/// are compared.
pub open spec fn member_key(m: Member) -> Seq<u8> {
    encode_utf8(m.1)
}

/// Inserts `x` into `s` after every element whose key is not greater than its own
/// (so that among equal keys the earlier element stays first).
pub open spec fn insert_by_key(s: Seq<Member>, x: Member) -> Seq<Member>
    decreases s.len(),
{
    if s.len() == 0 {
        seq![x]
    } else if bytes_lt(member_key(x), member_key(s.last())) {
        insert_by_key(s.drop_last(), x).push(s.last())
    } else {
        s.push(x)
    }
}

/// The guardians sorted by key; guardians with equal keys keep their order.
pub open spec fn sort_by_key(s: Seq<Member>) -> Seq<Member>
    decreases s.len(),
{
    if s.len() == 0 {
        s
    } else {
        insert_by_key(sort_by_key(s.drop_last()), s.last())
    }
}

/// Every guardian's URL normalised, or `None` where one does not parse.
pub open spec fn normalize_members(ms: Seq<Member>) -> Option<Seq<Member>>
    decreases ms.len(),
{
    if ms.len() == 0 {
        Some(Seq::empty())
    } else {
        match (normalize_members(ms.drop_last()), url_serialization(ms.last().1)) {
            (Some(rest), Some(u)) => Some(rest.push((ms.last().0, u))),
            _ => None,
        }
    }
}

/// The canonical config of a federation: normalised URLs, sorted.
pub open spec fn sanitized_config(ms: Seq<Member>) -> Option<Seq<u8>> {
    match normalize_members(ms) {
        Some(n) => Some(connect_json(sort_by_key(n))),
        None => None,
    }
}

/// The label of a federation: the first twelve hex digits of the SHA-256 digest of its
/// canonical config, or `None` where a URL does not parse.
pub open spec fn federation_label(ms: Seq<Member>) -> Option<Seq<char>> {
    match sanitized_config(ms) {
        Some(cfg) => Some(hex_lower(sha256(cfg).subrange(0, 6))),
        None => None,
    }
}

/// The guardians as the label computation sees them.
pub open spec fn members_view(ms: Seq<(u16, String)>) -> Seq<Member> {
    ms.map_values(|m: (u16, String)| (m.0, m.1@))
}

// ---------------------------------------------------------------------------
// Trusted items.
// ---------------------------------------------------------------------------

/// `url::Url::parse` followed by the URL's serialization (`Url` into `String`).
#[verifier::external_body]
fn normalize_url(s: &str) -> (r: Option<String>)
    ensures
        match r {
            Some(u) => url_serialization(s@) == Some(u@),
            None => url_serialization(s@) is None,
        },
{
    match url::Url::parse(s) {
        Ok(u) => Some(String::from(u)),
        Err(_) => None,
    }
}

/// `serde_json::to_string` of a string: the string literal with `"`, `\` and control
/// characters escaped as serde_json's escape table does. Serialising a `str` into a
/// byte buffer cannot fail.
#[verifier::external_body]
fn json_quote(s: &str) -> (r: String)
    ensures
        r@ == json_string(s@),
{
    match serde_json::to_string(s) {
        Ok(q) => q,
        Err(_) => String::new(),
    }
}

/// `bitcoin::hashes::sha256::Hash::hash`: the SHA-256 digest of `data`, 32 bytes.
#[verifier::external_body]
fn sha256_digest(data: &[u8]) -> (r: Vec<u8>)
    ensures
        r@ == sha256(data@),
        r@.len() == 32,
{
    let digest = <bitcoin::hashes::sha256::Hash as bitcoin::hashes::Hash>::hash(data);
    <bitcoin::hashes::sha256::Hash as bitcoin::hashes::Hash>::into_inner(digest).to_vec()
}

// ---------------------------------------------------------------------------
// Verified computation.
// ---------------------------------------------------------------------------

/// `a` comes before `b` in lexicographic byte order.
pub fn bytes_less(a: &[u8], b: &[u8]) -> (r: bool)
    ensures
        r == bytes_lt(a@, b@),
{
    let mut i: usize = 0;
    proof {
        assert(a@.subrange(0, a@.len() as int) =~= a@);
        assert(b@.subrange(0, b@.len() as int) =~= b@);
    }
    while i < a.len() && i < b.len()
        invariant
            i <= a@.len(),
            i <= b@.len(),
            a@.subrange(0, i as int) == b@.subrange(0, i as int),
            bytes_lt(a@, b@) == bytes_lt(a@.subrange(i as int, a@.len() as int), b@.subrange(i as int, b@.len() as int)),
        decreases a@.len() - i,
    {
        let ghost sa = a@.subrange(i as int, a@.len() as int);
        let ghost sb = b@.subrange(i as int, b@.len() as int);
        if a[i] != b[i] {
            proof {
                assert(sa[0] == a@[i as int]);
                assert(sb[0] == b@[i as int]);
            }
            return a[i] < b[i];
        }
        proof {
            assert(sa.drop_first() =~= a@.subrange(i + 1, a@.len() as int));
            assert(sb.drop_first() =~= b@.subrange(i + 1, b@.len() as int));
            assert(a@.subrange(0, i + 1) =~= a@.subrange(0, i as int).push(a@[i as int]));
            assert(b@.subrange(0, i + 1) =~= b@.subrange(0, i as int).push(b@[i as int]));
        }
        i = i + 1;
    }
    i < b.len()
}

/// Appends the decimal digits of `n`.
fn push_decimal(out: &mut Vec<u8>, n: u16)
    ensures
        final(out)@ == old(out)@ + decimal(n as nat),
    decreases n,
{
    if n >= 10 {
        push_decimal(out, n / 10);
    }
    out.push(48 + (n % 10) as u8);
    proof {
        assert(final(out)@ =~= old(out)@ + decimal(n as nat));
    }
}

/// Appends the bytes of `src`.
fn push_all(out: &mut Vec<u8>, src: &[u8])
    ensures
        final(out)@ == old(out)@ + src@,
{
    let ghost start = out@;
    let mut i: usize = 0;
    while i < src.len()
        invariant
            i <= src@.len(),
            out@ == start + src@.subrange(0, i as int),
        decreases src@.len() - i,
    {
        out.push(src[i]);
        i = i + 1;
        proof {
            assert(out@ =~= start + src@.subrange(0, i as int));
        }
    }
    proof {
        assert(src@.subrange(0, src@.len() as int) =~= src@);
    }
}

/// Inserting into the first `j` elements, where the elements from `j` on all have
/// greater keys than `x`, is inserting into the whole sequence.
proof fn lemma_insert_prefix(s: Seq<Member>, x: Member, j: int)
    requires
        0 <= j <= s.len(),
        forall|k: int| j <= k < s.len() ==> bytes_lt(member_key(x), #[trigger] member_key(s[k])),
    ensures
        insert_by_key(s, x) == insert_by_key(s.subrange(0, j), x) + s.subrange(j, s.len() as int),
    decreases s.len() - j,
{
    if j == s.len() {
        assert(s.subrange(0, j) =~= s);
        assert(s.subrange(j, s.len() as int) =~= Seq::<Member>::empty());
        assert(insert_by_key(s, x) + Seq::<Member>::empty() =~= insert_by_key(s, x));
    } else {
        lemma_insert_prefix(s, x, j + 1);
        let p = s.subrange(0, j + 1);
        assert(p.last() == s[j]);
        assert(p.drop_last() =~= s.subrange(0, j));
        assert(bytes_lt(member_key(x), member_key(p.last())));
        assert(insert_by_key(p, x) == insert_by_key(s.subrange(0, j), x).push(s[j]));
        assert(insert_by_key(s.subrange(0, j), x).push(s[j]) + s.subrange(j + 1, s.len() as int)
            =~= insert_by_key(s.subrange(0, j), x) + s.subrange(j, s.len() as int));
    }
}

/// Inserts `x` into the key-sorted `out` after every element whose key is not greater.
fn insert_member(out: &mut Vec<(u16, String)>, x: (u16, String))
    ensures
        members_view(final(out)@) == insert_by_key(members_view(old(out)@), (x.0, x.1@)),
{
    let ghost s = members_view(out@);
    let ghost xm: Member = (x.0, x.1@);
    let mut j: usize = out.len();
    while j > 0 && bytes_less(x.1.as_str().as_bytes(), out[j - 1].1.as_str().as_bytes())
        invariant
            j <= out@.len(),
            s == members_view(out@),
            xm == (x.0, x.1@),
            forall|k: int| j <= k < s.len() ==> bytes_lt(member_key(xm), #[trigger] member_key(s[k])),
        decreases j,
    {
        proof {
            assert(member_key(s[j - 1]) == encode_utf8(out@[j - 1].1@));
        }
        j = j - 1;
    }
    proof {
        lemma_insert_prefix(s, xm, j as int);
        let p = s.subrange(0, j as int);
        if j > 0 {
            assert(p.last() == s[j - 1]);
            assert(!bytes_lt(member_key(xm), member_key(p.last())));
        }
        assert(insert_by_key(p, xm) == p.push(xm));
    }
    out.insert(j, x);
    proof {
        assert(members_view(out@) =~= s.subrange(0, j as int).push(xm) + s.subrange(
            j as int,
            s.len() as int,
        ));
    }
}

/// Sorts the guardians by URL, keeping the order of guardians with equal URLs.
pub fn sort_members(ms: Vec<(u16, String)>) -> (r: Vec<(u16, String)>)
    ensures
        members_view(r@) == sort_by_key(members_view(ms@)),
{
    let ghost input = members_view(ms@);
    let mut rest = ms;
    let mut taken: Vec<(u16, String)> = Vec::new();
    // Reverse the input so that popping takes the guardians in their order.
    while rest.len() > 0
        invariant
            members_view(rest@) + members_view(taken@).reverse() == input,
        decreases rest@.len(),
    {
        let ghost before_rest = rest@;
        let ghost before_taken = taken@;
        let x = rest.pop().unwrap();
        taken.push(x);
        proof {
            assert(members_view(taken@).reverse() =~= seq![(x.0, x.1@)] + members_view(
                before_taken,
            ).reverse());
            assert(members_view(before_rest) =~= members_view(rest@).push((x.0, x.1@)));
            assert(members_view(rest@) + members_view(taken@).reverse() =~= members_view(
                before_rest,
            ) + members_view(before_taken).reverse());
        }
    }
    proof {
        assert(members_view(taken@).reverse() =~= input);
    }
    let mut out: Vec<(u16, String)> = Vec::new();
    let ghost mut done: int = 0;
    while taken.len() > 0
        invariant
            0 <= done <= input.len(),
            members_view(taken@).reverse() == input.subrange(done, input.len() as int),
            members_view(out@) == sort_by_key(input.subrange(0, done)),
        decreases taken@.len(),
    {
        let ghost before_taken = taken@;
        let x = taken.pop().unwrap();
        proof {
            assert(members_view(before_taken) =~= members_view(taken@).push((x.0, x.1@)));
            assert(members_view(before_taken).reverse() =~= seq![(x.0, x.1@)] + members_view(
                taken@,
            ).reverse());
            assert(input[done] == (x.0, x.1@)) by {
                assert(input.subrange(done, input.len() as int)[0] == input[done]);
            }
        }
        insert_member(&mut out, x);
        proof {
            let p = input.subrange(0, done + 1);
            assert(p.drop_last() =~= input.subrange(0, done));
            assert(p.last() == input[done]);
            let t = members_view(taken@).reverse();
            assert((seq![(x.0, x.1@)] + t).drop_first() =~= t);
            assert(input.subrange(done, input.len() as int).drop_first() =~= input.subrange(done + 1, input.len() as int));
            assert(t =~= input.subrange(done + 1, input.len() as int));
            done = done + 1;
        }
    }
    proof {
        assert(input.subrange(0, done) =~= input);
    }
    out
}

/// Normalises every guardian's URL; `None` where one does not parse.
pub fn normalize_all(ms: &Vec<(u16, String)>) -> (r: Option<Vec<(u16, String)>>)
    ensures
        match r {
            Some(v) => normalize_members(members_view(ms@)) == Some(members_view(v@)),
            None => normalize_members(members_view(ms@)) is None,
        },
{
    let ghost input = members_view(ms@);
    let mut out: Vec<(u16, String)> = Vec::new();
    let mut i: usize = 0;
    while i < ms.len()
        invariant
            i <= ms@.len(),
            input == members_view(ms@),
            normalize_members(input.subrange(0, i as int)) == Some(members_view(out@)),
        decreases ms@.len() - i,
    {
        let ghost p = input.subrange(0, i + 1);
        proof {
            assert(p.drop_last() =~= input.subrange(0, i as int));
            assert(p.last() == input[i as int]);
        }
        match normalize_url(ms[i].1.as_str()) {
            Some(u) => {
                let ghost uv = u@;
                out.push((ms[i].0, u));
                proof {
                    assert(members_view(out@) =~= members_view(out@).drop_last().push((input[i as int].0, uv)));
                }
            },
            None => {
                proof {
                    lemma_normalize_none_extends(input, i as int + 1);
                    assert(input.subrange(0, input.len() as int) =~= input);
                }
                return None;
            },
        }
        i = i + 1;
    }
    proof {
        assert(input.subrange(0, input.len() as int) =~= input);
    }
    Some(out)
}

/// Once a prefix fails to normalise, every longer prefix fails too.
proof fn lemma_normalize_none_extends(ms: Seq<Member>, j: int)
    requires
        0 < j <= ms.len(),
        normalize_members(ms.subrange(0, j)) is None,
    ensures
        normalize_members(ms) is None,
    decreases ms.len() - j,
{
    if j == ms.len() {
        assert(ms.subrange(0, j) =~= ms);
    } else {
        let p = ms.subrange(0, j + 1);
        assert(p.drop_last() =~= ms.subrange(0, j));
        lemma_normalize_none_extends(ms, j + 1);
    }
}

/// Writes the guardians as a compact JSON federation config.
pub fn write_connect_json(ms: &Vec<(u16, String)>) -> (r: Vec<u8>)
    ensures
        r@ == connect_json(members_view(ms@)),
{
    let ghost input = members_view(ms@);
    let mut out: Vec<u8> = Vec::new();
    out.push(123u8);
    out.push(34u8);
    out.push(109u8);
    out.push(101u8);
    out.push(109u8);
    out.push(98u8);
    out.push(101u8);
    out.push(114u8);
    out.push(115u8);
    out.push(34u8);
    out.push(58u8);
    out.push(91u8);
    proof {
        assert(out@ =~= json_open());
        assert(input.subrange(0, 0) =~= Seq::<Member>::empty());
    }
    let mut i: usize = 0;
    while i < ms.len()
        invariant
            i <= ms@.len(),
            input == members_view(ms@),
            out@ == json_open() + members_json(input.subrange(0, i as int)),
        decreases ms@.len() - i,
    {
        let ghost before = out@;
        if i > 0 {
            out.push(44u8);
        }
        out.push(91u8);
        push_decimal(&mut out, ms[i].0);
        out.push(44u8);
        let quoted = json_quote(ms[i].1.as_str());
        push_all(&mut out, quoted.as_str().as_bytes());
        out.push(93u8);
        proof {
            let p = input.subrange(0, i + 1);
            assert(p.drop_last() =~= input.subrange(0, i as int));
            assert(p.last() == input[i as int]);
            if i == 0 {
                assert(p.len() == 1);
                assert(members_json(input.subrange(0, 0)) == Seq::<u8>::empty());
                assert(out@ =~= json_open() + member_json(input[i as int]));
            } else {
                assert(out@ =~= before + seq![44u8] + member_json(input[i as int]));
            }
            assert(out@ =~= json_open() + members_json(p));
        }
        i = i + 1;
    }
    proof {
        assert(input.subrange(0, input.len() as int) =~= input);
    }
    out.push(93u8);
    out.push(125u8);
    proof {
        assert(out@ =~= connect_json(input));
    }
    out
}

/// The canonical config of the federation with guardians `ms`, or `None` where a
/// guardian's URL does not parse.
pub fn sanitize_config(ms: &Vec<(u16, String)>) -> (r: Option<Vec<u8>>)
    ensures
        match r {
            Some(v) => sanitized_config(members_view(ms@)) == Some(v@),
            None => sanitized_config(members_view(ms@)) is None,
        },
{
    match normalize_all(ms) {
        Some(normalized) => {
            let sorted = sort_members(normalized);
            Some(write_connect_json(&sorted))
        },
        None => None,
    }
}

/// The label of the federation with guardians `ms`, or `None` where a guardian's URL
/// does not parse.
pub fn label_for_members(ms: &Vec<(u16, String)>) -> (r: Option<String>)
    ensures
        match r {
            Some(l) => federation_label(members_view(ms@)) == Some(l@),
            None => federation_label(members_view(ms@)) is None,
        },
{
    match sanitize_config(ms) {
        Some(cfg) => {
            let digest = sha256_digest(cfg.as_slice());
            let mut head: Vec<u8> = Vec::new();
            let mut i: usize = 0;
            while i < 6
                invariant
                    i <= 6,
                    digest@.len() == 32,
                    head@ == digest@.subrange(0, i as int),
                decreases 6 - i,
            {
                head.push(digest[i]);
                i = i + 1;
                proof {
                    assert(head@ =~= digest@.subrange(0, i as int));
                }
            }
            let hex = hex_lower_bytes(head.as_slice());
            let ghost hv = hex@;
            let label = ascii_string(hex);
            proof {
                assert(ascii_chars_of(hv) =~= hex_lower(head@));
                assert(label@ =~= hex_lower(digest@.subrange(0, 6)));
            }
            Some(label)
        },
        None => None,
    }
}

} // verus!

verus! {

// ---------------------------------------------------------------------------
// The order on keys.
// ---------------------------------------------------------------------------

/// No byte string comes before itself.
pub proof fn lemma_bytes_lt_irreflexive(a: Seq<u8>)
    ensures
        !bytes_lt(a, a),
    decreases a.len(),
{
    if a.len() > 0 {
        lemma_bytes_lt_irreflexive(a.drop_first());
    }
}

/// The order on byte strings is transitive.
pub proof fn lemma_bytes_lt_transitive(a: Seq<u8>, b: Seq<u8>, c: Seq<u8>)
    requires
        bytes_lt(a, b),
        bytes_lt(b, c),
    ensures
        bytes_lt(a, c),
    decreases a.len(),
{
    if a.len() > 0 && b.len() > 0 && c.len() > 0 {
        if a[0] == b[0] && b[0] == c[0] {
            lemma_bytes_lt_transitive(a.drop_first(), b.drop_first(), c.drop_first());
        }
    }
}

/// Of two different byte strings one comes before the other.
pub proof fn lemma_bytes_lt_total(a: Seq<u8>, b: Seq<u8>)
    requires
        a != b,
    ensures
        bytes_lt(a, b) || bytes_lt(b, a),
    decreases a.len(),
{
    if a.len() == 0 && b.len() == 0 {
        assert(a =~= b);
    } else if a.len() > 0 && b.len() > 0 && a[0] == b[0] {
        if a.drop_first() == b.drop_first() {
            assert(a =~= seq![a[0]] + a.drop_first());
            assert(b =~= seq![b[0]] + b.drop_first());
            assert(a =~= b);
        } else {
            lemma_bytes_lt_total(a.drop_first(), b.drop_first());
        }
    }
}

/// Of two byte strings at most one comes before the other.
pub proof fn lemma_bytes_lt_asymmetric(a: Seq<u8>, b: Seq<u8>)
    requires
        bytes_lt(a, b),
    ensures
        !bytes_lt(b, a),
{
    if bytes_lt(b, a) {
        lemma_bytes_lt_transitive(a, b, a);
        lemma_bytes_lt_irreflexive(a);
    }
}

// ---------------------------------------------------------------------------
// Properties of the sort.
// ---------------------------------------------------------------------------

/// Keys do not decrease along `s`.
pub open spec fn sorted_by_key(s: Seq<Member>) -> bool {
    forall|i: int, j: int| 0 <= i < j < s.len() ==> !bytes_lt(member_key(#[trigger] s[j]), member_key(#[trigger] s[i]))
}

/// Keys increase along `s`.
pub open spec fn strictly_sorted_by_key(s: Seq<Member>) -> bool {
    forall|i: int, j: int| 0 <= i < j < s.len() ==> bytes_lt(member_key(#[trigger] s[i]), member_key(#[trigger] s[j]))
}

/// No two guardians of `s` have the same key.
pub open spec fn distinct_keys(s: Seq<Member>) -> bool {
    forall|i: int, j: int| 0 <= i < j < s.len() ==> member_key(#[trigger] s[i]) != member_key(#[trigger] s[j])
}

/// Inserting keeps the length and adds exactly the new guardian.
proof fn lemma_insert_contents(s: Seq<Member>, x: Member)
    ensures
        insert_by_key(s, x).len() == s.len() + 1,
        forall|y: Member| #[trigger] insert_by_key(s, x).contains(y) <==> (s.contains(y) || y == x),
    decreases s.len(),
{
    let r = insert_by_key(s, x);
    if s.len() == 0 {
        assert(r =~= seq![x]);
        assert forall|y: Member| #[trigger] r.contains(y) <==> (s.contains(y) || y == x) by {
            if r.contains(y) {
                let k = choose|k: int| 0 <= k < r.len() && r[k] == y;
                assert(k == 0);
            }
            if y == x {
                assert(r[0] == y);
            }
        }
    } else if bytes_lt(member_key(x), member_key(s.last())) {
        let init = s.drop_last();
        lemma_insert_contents(init, x);
        let ri = insert_by_key(init, x);
        assert(r == ri.push(s.last()));
        assert forall|y: Member| #[trigger] r.contains(y) <==> (s.contains(y) || y == x) by {
            if r.contains(y) {
                let k = choose|k: int| 0 <= k < r.len() && r[k] == y;
                if k < ri.len() {
                    assert(ri[k] == y);
                    assert(ri.contains(y));
                    if init.contains(y) {
                        let m = choose|m: int| 0 <= m < init.len() && init[m] == y;
                        assert(s[m] == y);
                    }
                } else {
                    assert(s[s.len() - 1] == y);
                }
            }
            if s.contains(y) {
                let m = choose|m: int| 0 <= m < s.len() && s[m] == y;
                if m < s.len() - 1 {
                    assert(init[m] == y);
                    assert(ri.contains(y));
                    let k = choose|k: int| 0 <= k < ri.len() && ri[k] == y;
                    assert(r[k] == y);
                } else {
                    assert(r[r.len() - 1] == y);
                }
            }
            if y == x {
                assert(ri.contains(y));
                let k = choose|k: int| 0 <= k < ri.len() && ri[k] == y;
                assert(r[k] == y);
            }
        }
    } else {
        assert(r == s.push(x));
        assert forall|y: Member| #[trigger] r.contains(y) <==> (s.contains(y) || y == x) by {
            if r.contains(y) {
                let k = choose|k: int| 0 <= k < r.len() && r[k] == y;
                if k < s.len() {
                    assert(s[k] == y);
                }
            }
            if s.contains(y) {
                let m = choose|m: int| 0 <= m < s.len() && s[m] == y;
                assert(r[m] == y);
            }
            if y == x {
                assert(r[s.len() as int] == y);
            }
        }
    }
}

/// Inserting into a sorted sequence gives a sorted sequence.
proof fn lemma_insert_sorted(s: Seq<Member>, x: Member)
    requires
        sorted_by_key(s),
    ensures
        sorted_by_key(insert_by_key(s, x)),
    decreases s.len(),
{
    let r = insert_by_key(s, x);
    if s.len() == 0 {
    } else if bytes_lt(member_key(x), member_key(s.last())) {
        let init = s.drop_last();
        assert(sorted_by_key(init)) by {
            assert forall|i: int, j: int| 0 <= i < j < init.len() implies !bytes_lt(
                member_key(#[trigger] init[j]),
                member_key(#[trigger] init[i]),
            ) by {
                assert(init[i] == s[i] && init[j] == s[j]);
            }
        }
        lemma_insert_sorted(init, x);
        lemma_insert_contents(init, x);
        let ri = insert_by_key(init, x);
        assert(r == ri.push(s.last()));
        assert forall|i: int, j: int| 0 <= i < j < r.len() implies !bytes_lt(
            member_key(#[trigger] r[j]),
            member_key(#[trigger] r[i]),
        ) by {
            if j == r.len() - 1 {
                let y = ri[i];
                assert(ri.contains(y));
                if y == x {
                    lemma_bytes_lt_asymmetric(member_key(x), member_key(s.last()));
                } else {
                    let m = choose|m: int| 0 <= m < init.len() && init[m] == y;
                    assert(s[m] == y);
                    assert(!bytes_lt(member_key(s[s.len() - 1]), member_key(s[m])));
                }
            } else {
                assert(r[i] == ri[i] && r[j] == ri[j]);
            }
        }
    } else {
        assert(r == s.push(x));
        assert forall|i: int, j: int| 0 <= i < j < r.len() implies !bytes_lt(
            member_key(#[trigger] r[j]),
            member_key(#[trigger] r[i]),
        ) by {
            if j == r.len() - 1 {
                assert(r[j] == x);
                if i < s.len() - 1 {
                    assert(!bytes_lt(member_key(s[s.len() - 1]), member_key(s[i])));
                    if bytes_lt(member_key(x), member_key(s[i])) {
                        // key(s.last()) >= key(s[i]) > key(x) contradicts key(x) >= key(s.last())
                        if member_key(s[i]) == member_key(s.last()) {
                        } else {
                            lemma_bytes_lt_total(member_key(s[i]), member_key(s.last()));
                            lemma_bytes_lt_transitive(member_key(x), member_key(s[i]), member_key(s.last()));
                        }
                    }
                }
            } else {
                assert(r[i] == s[i] && r[j] == s[j]);
            }
        }
    }
}

/// Sorting keeps the length and the guardians, and sorts.
pub proof fn lemma_sort_properties(s: Seq<Member>)
    ensures
        sort_by_key(s).len() == s.len(),
        forall|y: Member| #[trigger] sort_by_key(s).contains(y) <==> s.contains(y),
        sorted_by_key(sort_by_key(s)),
    decreases s.len(),
{
    if s.len() > 0 {
        let init = s.drop_last();
        lemma_sort_properties(init);
        lemma_insert_contents(sort_by_key(init), s.last());
        lemma_insert_sorted(sort_by_key(init), s.last());
        assert forall|y: Member| #[trigger] sort_by_key(s).contains(y) <==> s.contains(y) by {
            if init.contains(y) {
                let m = choose|m: int| 0 <= m < init.len() && init[m] == y;
                assert(s[m] == y);
            }
            if s.contains(y) {
                let m = choose|m: int| 0 <= m < s.len() && s[m] == y;
                if m < s.len() - 1 {
                    assert(init[m] == y);
                }
            }
        }
    }
}

/// A sorted sequence without two equal keys is strictly sorted.
proof fn lemma_sorted_distinct_strict(s: Seq<Member>)
    requires
        sorted_by_key(s),
        distinct_keys(s),
    ensures
        strictly_sorted_by_key(s),
{
    assert forall|i: int, j: int| 0 <= i < j < s.len() implies bytes_lt(member_key(#[trigger] s[i]), member_key(#[trigger] s[j])) by {
        assert(!bytes_lt(member_key(s[j]), member_key(s[i])));
        assert(member_key(s[i]) != member_key(s[j]));
        lemma_bytes_lt_total(member_key(s[i]), member_key(s[j]));
    }
}

/// Sorting guardians with distinct keys gives guardians with distinct keys.
proof fn lemma_sort_distinct(s: Seq<Member>)
    requires
        distinct_keys(s),
    ensures
        distinct_keys(sort_by_key(s)),
    decreases s.len(),
{
    if s.len() > 0 {
        let init = s.drop_last();
        assert(distinct_keys(init)) by {
            assert forall|i: int, j: int| 0 <= i < j < init.len() implies member_key(#[trigger] init[i]) != member_key(#[trigger] init[j]) by {
                assert(init[i] == s[i] && init[j] == s[j]);
            }
        }
        lemma_sort_distinct(init);
        lemma_sort_properties(init);
        let si = sort_by_key(init);
        let x = s.last();
        assert forall|k: int| 0 <= k < si.len() implies member_key(#[trigger] si[k]) != member_key(x) by {
            assert(si.contains(si[k]));
            let m = choose|m: int| 0 <= m < init.len() && init[m] == si[k];
            assert(s[m] == si[k]);
            assert(member_key(s[m]) != member_key(s[s.len() - 1]));
        }
        lemma_insert_distinct(si, x);
    }
}

/// Inserting a guardian whose key is new keeps keys distinct.
proof fn lemma_insert_distinct(s: Seq<Member>, x: Member)
    requires
        distinct_keys(s),
        forall|k: int| 0 <= k < s.len() ==> member_key(#[trigger] s[k]) != member_key(x),
    ensures
        distinct_keys(insert_by_key(s, x)),
    decreases s.len(),
{
    let r = insert_by_key(s, x);
    lemma_insert_contents(s, x);
    assert forall|i: int, j: int| 0 <= i < j < r.len() implies member_key(#[trigger] r[i]) != member_key(#[trigger] r[j]) by {
        let a = r[i];
        let b = r[j];
        assert(r.contains(a) && r.contains(b));
        if a == b {
            lemma_insert_no_dup(s, x, i, j);
        } else if a == x {
            let m = choose|m: int| 0 <= m < s.len() && s[m] == b;
            assert(member_key(s[m]) != member_key(x));
        } else if b == x {
            let m = choose|m: int| 0 <= m < s.len() && s[m] == a;
            assert(member_key(s[m]) != member_key(x));
        } else {
            let m = choose|m: int| 0 <= m < s.len() && s[m] == a;
            let n = choose|n: int| 0 <= n < s.len() && s[n] == b;
            assert(m != n);
            if m < n {
                assert(member_key(s[m]) != member_key(s[n]));
            } else {
                assert(member_key(s[n]) != member_key(s[m]));
            }
        }
    }
}

/// With distinct keys and a new key, the inserted sequence holds no guardian twice.
proof fn lemma_insert_no_dup(s: Seq<Member>, x: Member, i: int, j: int)
    requires
        distinct_keys(s),
        forall|k: int| 0 <= k < s.len() ==> member_key(#[trigger] s[k]) != member_key(x),
        0 <= i < j < insert_by_key(s, x).len(),
    ensures
        insert_by_key(s, x)[i] != insert_by_key(s, x)[j],
    decreases s.len(),
{
    let r = insert_by_key(s, x);
    if s.len() == 0 {
    } else if bytes_lt(member_key(x), member_key(s.last())) {
        let init = s.drop_last();
        assert(distinct_keys(init)) by {
            assert forall|a: int, b: int| 0 <= a < b < init.len() implies member_key(#[trigger] init[a]) != member_key(#[trigger] init[b]) by {
                assert(init[a] == s[a] && init[b] == s[b]);
            }
        }
        assert forall|k: int| 0 <= k < init.len() implies member_key(#[trigger] init[k]) != member_key(x) by {
            assert(init[k] == s[k]);
        }
        let ri = insert_by_key(init, x);
        lemma_insert_contents(init, x);
        assert(r == ri.push(s.last()));
        if j == r.len() - 1 {
            let y = ri[i];
            assert(ri.contains(y));
            if y == s.last() {
                if y == x {
                    assert(member_key(s[s.len() - 1]) != member_key(x));
                } else {
                    let m = choose|m: int| 0 <= m < init.len() && init[m] == y;
                    assert(s[m] == y);
                    assert(member_key(s[m]) != member_key(s[s.len() - 1]));
                }
            }
        } else {
            lemma_insert_no_dup(init, x, i, j);
        }
    } else {
        assert(r == s.push(x));
        if j == r.len() - 1 {
            assert(member_key(s[i]) != member_key(x));
        } else {
            assert(member_key(s[i]) != member_key(s[j]));
        }
    }
}

/// Two strictly sorted sequences that hold the same guardians are equal.
proof fn lemma_strictly_sorted_unique(a: Seq<Member>, b: Seq<Member>)
    requires
        strictly_sorted_by_key(a),
        strictly_sorted_by_key(b),
        forall|y: Member| a.contains(y) <==> b.contains(y),
    ensures
        a == b,
    decreases a.len() + b.len(),
{
    if a.len() == 0 {
        if b.len() > 0 {
            assert(b.contains(b[0]));
        }
        assert(a =~= b);
    } else if b.len() == 0 {
        assert(a.contains(a[0]));
    } else {
        let la = a.last();
        let lb = b.last();
        assert(a.contains(la));
        assert(b.contains(lb));
        let ia = choose|k: int| 0 <= k < a.len() && a[k] == lb;
        let ib = choose|k: int| 0 <= k < b.len() && b[k] == la;
        if ia < a.len() - 1 && ib < b.len() - 1 {
            // key(lb) < key(la) and key(la) < key(lb)
            assert(bytes_lt(member_key(a[ia]), member_key(a[a.len() - 1])));
            assert(bytes_lt(member_key(b[ib]), member_key(b[b.len() - 1])));
            lemma_bytes_lt_asymmetric(member_key(lb), member_key(la));
        } else if ia < a.len() - 1 {
            assert(ib == b.len() - 1);
        } else {
            assert(ia == a.len() - 1);
        }
        assert(la == lb);
        let ai = a.drop_last();
        let bi = b.drop_last();
        assert forall|y: Member| ai.contains(y) <==> bi.contains(y) by {
            if ai.contains(y) {
                let k = choose|k: int| 0 <= k < ai.len() && ai[k] == y;
                assert(a[k] == y);
                assert(bytes_lt(member_key(a[k]), member_key(a[a.len() - 1])));
                lemma_bytes_lt_irreflexive(member_key(la));
                assert(y != la);
                assert(b.contains(y));
                let m = choose|m: int| 0 <= m < b.len() && b[m] == y;
                assert(m != b.len() - 1);
                assert(bi[m] == y);
            }
            if bi.contains(y) {
                let k = choose|k: int| 0 <= k < bi.len() && bi[k] == y;
                assert(b[k] == y);
                assert(bytes_lt(member_key(b[k]), member_key(b[b.len() - 1])));
                lemma_bytes_lt_irreflexive(member_key(lb));
                assert(y != lb);
                assert(a.contains(y));
                let m = choose|m: int| 0 <= m < a.len() && a[m] == y;
                assert(m != a.len() - 1);
                assert(ai[m] == y);
            }
        }
        assert(strictly_sorted_by_key(ai)) by {
            assert forall|i: int, j: int| 0 <= i < j < ai.len() implies bytes_lt(member_key(#[trigger] ai[i]), member_key(#[trigger] ai[j])) by {
                assert(ai[i] == a[i] && ai[j] == a[j]);
            }
        }
        assert(strictly_sorted_by_key(bi)) by {
            assert forall|i: int, j: int| 0 <= i < j < bi.len() implies bytes_lt(member_key(#[trigger] bi[i]), member_key(#[trigger] bi[j])) by {
                assert(bi[i] == b[i] && bi[j] == b[j]);
            }
        }
        lemma_strictly_sorted_unique(ai, bi);
        assert(a =~= ai.push(la));
        assert(b =~= bi.push(lb));
    }
}

/// Normalising works guardian by guardian.
pub proof fn lemma_normalize_elementwise(ms: Seq<Member>)
    requires
        normalize_members(ms) is Some,
    ensures
        normalize_members(ms)->0.len() == ms.len(),
        forall|i: int|
            0 <= i < ms.len() ==> url_serialization(#[trigger] ms[i].1) is Some
                && normalize_members(ms)->0[i] == (ms[i].0, url_serialization(ms[i].1)->0),
    decreases ms.len(),
{
    if ms.len() > 0 {
        let init = ms.drop_last();
        assert(normalize_members(init) is Some);
        lemma_normalize_elementwise(init);
        assert forall|i: int|
            0 <= i < ms.len() implies url_serialization(#[trigger] ms[i].1) is Some
                && normalize_members(ms)->0[i] == (ms[i].0, url_serialization(ms[i].1)->0) by {
            if i < ms.len() - 1 {
                assert(init[i] == ms[i]);
            }
        }
    }
}

// ---------------------------------------------------------------------------
// Laws of the label.
// ---------------------------------------------------------------------------

/// The sort puts the guardians in key order and keeps every one of them.
pub proof fn law_sort_is_ordered_permutation(s: Seq<Member>)
    ensures
        sort_by_key(s).len() == s.len(),
        forall|y: Member| #[trigger] sort_by_key(s).contains(y) <==> s.contains(y),
        sorted_by_key(sort_by_key(s)),
{
    lemma_sort_properties(s);
}

/// Guardians already in key order are left as they are.
pub proof fn law_sort_keeps_sorted(s: Seq<Member>)
    requires
        strictly_sorted_by_key(s),
    ensures
        sort_by_key(s) == s,
{
    lemma_sort_properties(s);
    assert(distinct_keys(s)) by {
        assert forall|i: int, j: int| 0 <= i < j < s.len() implies member_key(#[trigger] s[i]) != member_key(#[trigger] s[j]) by {
            assert(bytes_lt(member_key(s[i]), member_key(s[j])));
            lemma_bytes_lt_irreflexive(member_key(s[i]));
        }
    }
    lemma_sort_distinct(s);
    lemma_sorted_distinct_strict(sort_by_key(s));
    lemma_strictly_sorted_unique(sort_by_key(s), s);
}

/// Two configs whose guardians normalise to the same guardians, each URL once, get
/// the same label, whatever the order in which they list them and however they spell
/// the URLs.
pub proof fn law_label_ignores_order_and_spelling(ms1: Seq<Member>, ms2: Seq<Member>)
    requires
        normalize_members(ms1) is Some,
        normalize_members(ms2) is Some,
        distinct_keys(normalize_members(ms1)->0),
        distinct_keys(normalize_members(ms2)->0),
        forall|y: Member|
            normalize_members(ms1)->0.contains(y) <==> normalize_members(ms2)->0.contains(y),
    ensures
        federation_label(ms1) == federation_label(ms2),
        federation_label(ms1) is Some,
{
    let n1 = normalize_members(ms1)->0;
    let n2 = normalize_members(ms2)->0;
    lemma_sort_properties(n1);
    lemma_sort_properties(n2);
    lemma_sort_distinct(n1);
    lemma_sort_distinct(n2);
    lemma_sorted_distinct_strict(sort_by_key(n1));
    lemma_sorted_distinct_strict(sort_by_key(n2));
    assert forall|y: Member| sort_by_key(n1).contains(y) <==> sort_by_key(n2).contains(y) by {
        assert(sort_by_key(n1).contains(y) <==> n1.contains(y));
        assert(sort_by_key(n2).contains(y) <==> n2.contains(y));
    }
    lemma_strictly_sorted_unique(sort_by_key(n1), sort_by_key(n2));
}

/// Listing the same guardians in another order gives the same label, where no two of
/// them have URLs that normalise alike.
pub proof fn law_label_ignores_member_order(ms1: Seq<Member>, ms2: Seq<Member>)
    requires
        forall|m: Member| ms1.contains(m) <==> ms2.contains(m),
        normalize_members(ms1) is Some,
        distinct_keys(normalize_members(ms1)->0),
        distinct_keys(normalize_members(ms2)->0),
    ensures
        federation_label(ms1) == federation_label(ms2),
{
    lemma_normalize_elementwise(ms1);
    let n1 = normalize_members(ms1)->0;
    assert(normalize_members(ms2) is Some) by {
        lemma_normalize_some_when_all_parse(ms2);
        assert forall|i: int| 0 <= i < ms2.len() implies url_serialization(#[trigger] ms2[i].1) is Some by {
            assert(ms2.contains(ms2[i]));
            let k = choose|k: int| 0 <= k < ms1.len() && ms1[k] == ms2[i];
            assert(url_serialization(ms1[k].1) is Some);
        }
    }
    lemma_normalize_elementwise(ms2);
    let n2 = normalize_members(ms2)->0;
    assert forall|y: Member| n1.contains(y) <==> n2.contains(y) by {
        if n1.contains(y) {
            let k = choose|k: int| 0 <= k < n1.len() && n1[k] == y;
            assert(ms1.contains(ms1[k]));
            let m = choose|m: int| 0 <= m < ms2.len() && ms2[m] == ms1[k];
            assert(n1[k] == (ms1[k].0, url_serialization(ms1[k].1)->0));
            assert(n2[m] == (ms2[m].0, url_serialization(ms2[m].1)->0));
            assert(n2[m] == y);
        }
        if n2.contains(y) {
            let k = choose|k: int| 0 <= k < n2.len() && n2[k] == y;
            assert(ms2.contains(ms2[k]));
            let m = choose|m: int| 0 <= m < ms1.len() && ms1[m] == ms2[k];
            assert(n2[k] == (ms2[k].0, url_serialization(ms2[k].1)->0));
            assert(n1[m] == (ms1[m].0, url_serialization(ms1[m].1)->0));
            assert(n1[m] == y);
        }
    }
    law_label_ignores_order_and_spelling(ms1, ms2);
}

/// Where every URL parses, normalising succeeds.
proof fn lemma_normalize_some_when_all_parse(ms: Seq<Member>)
    ensures
        (forall|i: int| 0 <= i < ms.len() ==> url_serialization(#[trigger] ms[i].1) is Some)
            ==> normalize_members(ms) is Some,
    decreases ms.len(),
{
    if ms.len() > 0 {
        let init = ms.drop_last();
        lemma_normalize_some_when_all_parse(init);
        if forall|i: int| 0 <= i < ms.len() ==> url_serialization(#[trigger] ms[i].1) is Some {
            assert forall|i: int| 0 <= i < init.len() implies url_serialization(#[trigger] init[i].1) is Some by {
                assert(init[i] == ms[i]);
            }
            assert(url_serialization(ms[ms.len() - 1].1) is Some);
        }
    }
}

} // verus!
