use crate::ledger::entries_view;
use vstd::bytes::{
    lemma_auto_spec_u64_to_from_le_bytes, spec_u64_from_le_bytes, spec_u64_to_le_bytes,
    u64_from_le_bytes, u64_to_le_bytes,
};
use vstd::prelude::*;
use vstd::slice::{slice_index_get, slice_subrange};
use vstd::utf8::{decode_utf8, encode_utf8, encode_utf8_decode_utf8, encode_utf8_valid_utf8,
    valid_utf8};

verus! {

// The cache file format for the ignore ledger. Every integer is a u64 in
// little-endian order and every string is its byte length followed by its
// UTF-8 bytes. A ledger is an entry count followed by its entries; an entry
// is an executable path, a command-line count, and the command lines. An
// empty file stands for an empty ledger.

/// A string whose UTF-8 byte length fits the length prefix.
pub open spec fn str_encodable(s: Seq<char>) -> bool {
    encode_utf8(s).len() <= 0xffff_ffff_ffff_ffff
}

/// Entry lists whose counts and string lengths all fit their prefixes.
pub open spec fn entries_encodable(s: Seq<(Seq<char>, Seq<Seq<char>>)>) -> bool {
    &&& s.len() <= 0xffff_ffff_ffff_ffff
    &&& forall|i: int|
        0 <= i < s.len() ==> {
            &&& str_encodable(#[trigger] s[i].0)
            &&& s[i].1.len() <= 0xffff_ffff_ffff_ffff
            &&& forall|j: int| 0 <= j < s[i].1.len() ==> str_encodable(#[trigger] s[i].1[j])
        }
}

/// The encoding of one string: length prefix, then UTF-8 bytes.
pub open spec fn spec_enc_str(s: Seq<char>) -> Seq<u8> {
    spec_u64_to_le_bytes(encode_utf8(s).len() as u64) + encode_utf8(s)
}

/// The encoding of a list of strings, one after the other.
pub open spec fn spec_enc_strs(ss: Seq<Seq<char>>) -> Seq<u8>
    decreases ss.len(),
{
    if ss.len() == 0 {
        Seq::<u8>::empty()
    } else {
        spec_enc_str(ss.first()) + spec_enc_strs(ss.drop_first())
    }
}

/// The encoding of one ledger entry: executable path, command-line count,
/// command lines.
pub open spec fn spec_enc_entry(e: (Seq<char>, Seq<Seq<char>>)) -> Seq<u8> {
    spec_enc_str(e.0) + spec_u64_to_le_bytes(e.1.len() as u64) + spec_enc_strs(e.1)
}

/// The encoding of a list of ledger entries, one after the other.
pub open spec fn spec_enc_entries(s: Seq<(Seq<char>, Seq<Seq<char>>)>) -> Seq<u8>
    decreases s.len(),
{
    if s.len() == 0 {
        Seq::<u8>::empty()
    } else {
        spec_enc_entry(s.first()) + spec_enc_entries(s.drop_first())
    }
}

/// The encoding of a whole ledger: entry count, then the entries.
pub open spec fn spec_encode(s: Seq<(Seq<char>, Seq<Seq<char>>)>) -> Seq<u8> {
    spec_u64_to_le_bytes(s.len() as u64) + spec_enc_entries(s)
}

/// Reads a length-prefixed u64 from the front of the input.
pub open spec fn spec_parse_u64(b: Seq<u8>) -> Option<(u64, Seq<u8>)> {
    if b.len() >= 8 {
        Some((spec_u64_from_le_bytes(b.take(8)), b.skip(8)))
    } else {
        None
    }
}

/// Reads one string from the front of the input: its byte length, then that
/// many bytes, which must be valid UTF-8.
pub open spec fn spec_parse_str(b: Seq<u8>) -> Option<(Seq<char>, Seq<u8>)> {
    match spec_parse_u64(b) {
        Some((n, rest)) => if rest.len() >= n && valid_utf8(rest.take(n as int)) {
            Some((decode_utf8(rest.take(n as int)), rest.skip(n as int)))
        } else {
            None
        },
        None => None,
    }
}

/// Reads `count` strings from the front of the input.
pub open spec fn spec_parse_strs(b: Seq<u8>, count: nat) -> Option<(Seq<Seq<char>>, Seq<u8>)>
    decreases count,
{
    if count == 0 {
        Some((Seq::<Seq<char>>::empty(), b))
    } else {
        match spec_parse_str(b) {
            Some((s, rest)) => match spec_parse_strs(rest, (count - 1) as nat) {
                Some((ss, rest2)) => Some((seq![s] + ss, rest2)),
                None => None,
            },
            None => None,
        }
    }
}

/// Reads one ledger entry from the front of the input.
pub open spec fn spec_parse_entry(b: Seq<u8>) -> Option<((Seq<char>, Seq<Seq<char>>), Seq<u8>)> {
    match spec_parse_str(b) {
        Some((exe, rest)) => match spec_parse_u64(rest) {
            Some((count, rest2)) => match spec_parse_strs(rest2, count as nat) {
                Some((cmds, rest3)) => Some(((exe, cmds), rest3)),
                None => None,
            },
            None => None,
        },
        None => None,
    }
}

/// Reads `count` ledger entries from the front of the input.
pub open spec fn spec_parse_entries(b: Seq<u8>, count: nat) -> Option<
    (Seq<(Seq<char>, Seq<Seq<char>>)>, Seq<u8>),
>
    decreases count,
{
    if count == 0 {
        Some((Seq::<(Seq<char>, Seq<Seq<char>>)>::empty(), b))
    } else {
        match spec_parse_entry(b) {
            Some((e, rest)) => match spec_parse_entries(rest, (count - 1) as nat) {
                Some((es, rest2)) => Some((seq![e] + es, rest2)),
                None => None,
            },
            None => None,
        }
    }
}

/// Reads a whole ledger: empty input is the empty ledger; otherwise the
/// entry count and the entries must consume the input exactly.
pub open spec fn spec_parse_ledger(b: Seq<u8>) -> Option<Seq<(Seq<char>, Seq<Seq<char>>)>> {
    if b.len() == 0 {
        Some(Seq::<(Seq<char>, Seq<Seq<char>>)>::empty())
    } else {
        match spec_parse_u64(b) {
            Some((count, rest)) => match spec_parse_entries(rest, count as nat) {
                Some((es, rest2)) => if rest2.len() == 0 {
                    Some(es)
                } else {
                    None
                },
                None => None,
            },
            None => None,
        }
    }
}

proof fn lemma_parse_u64_enc(n: u64, tail: Seq<u8>)
    ensures
        spec_parse_u64(spec_u64_to_le_bytes(n) + tail) == Some((n, tail)),
{
    lemma_auto_spec_u64_to_from_le_bytes();
    let b = spec_u64_to_le_bytes(n) + tail;
    assert(b.take(8) =~= spec_u64_to_le_bytes(n));
    assert(b.skip(8) =~= tail);
}

proof fn lemma_parse_str_enc(s: Seq<char>, tail: Seq<u8>)
    requires
        str_encodable(s),
    ensures
        spec_parse_str(spec_enc_str(s) + tail) == Some((s, tail)),
{
    let u = encode_utf8(s);
    let n: u64 = u.len() as u64;
    let b = spec_enc_str(s) + tail;
    assert(b =~= spec_u64_to_le_bytes(n) + (u + tail));
    lemma_parse_u64_enc(n, u + tail);
    let rest = u + tail;
    assert(rest.take(n as int) =~= u);
    assert(rest.skip(n as int) =~= tail);
    encode_utf8_valid_utf8(s);
    encode_utf8_decode_utf8(s);
}

proof fn lemma_parse_strs_enc(ss: Seq<Seq<char>>, tail: Seq<u8>)
    requires
        forall|j: int| 0 <= j < ss.len() ==> str_encodable(#[trigger] ss[j]),
    ensures
        spec_parse_strs(spec_enc_strs(ss) + tail, ss.len() as nat) == Some((ss, tail)),
    decreases ss.len(),
{
    if ss.len() == 0 {
        assert(spec_enc_strs(ss) + tail =~= tail);
        assert(ss =~= Seq::<Seq<char>>::empty());
    } else {
        let first = ss.first();
        let rest = ss.drop_first();
        let b = spec_enc_strs(ss) + tail;
        assert(b =~= spec_enc_str(first) + (spec_enc_strs(rest) + tail));
        lemma_parse_str_enc(first, spec_enc_strs(rest) + tail);
        lemma_parse_strs_enc(rest, tail);
        assert(seq![first] + rest =~= ss);
    }
}

proof fn lemma_parse_entry_enc(e: (Seq<char>, Seq<Seq<char>>), tail: Seq<u8>)
    requires
        str_encodable(e.0),
        e.1.len() <= 0xffff_ffff_ffff_ffff,
        forall|j: int| 0 <= j < e.1.len() ==> str_encodable(#[trigger] e.1[j]),
    ensures
        spec_parse_entry(spec_enc_entry(e) + tail) == Some((e, tail)),
{
    let n: u64 = e.1.len() as u64;
    let b = spec_enc_entry(e) + tail;
    let after_exe = spec_u64_to_le_bytes(n) + (spec_enc_strs(e.1) + tail);
    assert(b =~= spec_enc_str(e.0) + after_exe);
    lemma_parse_str_enc(e.0, after_exe);
    lemma_parse_u64_enc(n, spec_enc_strs(e.1) + tail);
    lemma_parse_strs_enc(e.1, tail);
    assert((e.0, e.1) == e);
}

proof fn lemma_parse_entries_enc(s: Seq<(Seq<char>, Seq<Seq<char>>)>, tail: Seq<u8>)
    requires
        entries_encodable(s),
    ensures
        spec_parse_entries(spec_enc_entries(s) + tail, s.len() as nat) == Some((s, tail)),
    decreases s.len(),
{
    if s.len() == 0 {
        assert(spec_enc_entries(s) + tail =~= tail);
        assert(s =~= Seq::<(Seq<char>, Seq<Seq<char>>)>::empty());
    } else {
        let first = s.first();
        let rest = s.drop_first();
        let b = spec_enc_entries(s) + tail;
        assert(b =~= spec_enc_entry(first) + (spec_enc_entries(rest) + tail));
        lemma_parse_entry_enc(first, spec_enc_entries(rest) + tail);
        assert(entries_encodable(rest)) by {
            assert(forall|i: int| 0 <= i < rest.len() ==> rest[i] == s[i + 1]);
        }
        lemma_parse_entries_enc(rest, tail);
        assert(seq![first] + rest =~= s);
    }
}

/// Round-trip law: parsing the encoding of any encodable entry list yields
/// exactly that list, so a saved ledger always loads back unchanged.
pub proof fn lemma_encode_parse_round_trip(s: Seq<(Seq<char>, Seq<Seq<char>>)>)
    requires
        entries_encodable(s),
    ensures
        spec_parse_ledger(spec_encode(s)) == Some(s),
{
    lemma_auto_spec_u64_to_from_le_bytes();
    let b = spec_encode(s);
    assert(b.len() >= 8);
    assert(b =~= spec_u64_to_le_bytes(s.len() as u64) + (spec_enc_entries(s) + Seq::<u8>::empty()));
    lemma_parse_u64_enc(s.len() as u64, spec_enc_entries(s) + Seq::<u8>::empty());
    assert(spec_enc_entries(s) + Seq::<u8>::empty() =~= spec_enc_entries(s));
    lemma_parse_entries_enc(s, Seq::<u8>::empty());
    assert(spec_enc_entries(s) =~= spec_enc_entries(s) + Seq::<u8>::empty());
}

/// Appends a slice of bytes to the output buffer.
fn push_bytes(out: &mut Vec<u8>, bytes: &[u8])
    ensures
        final(out)@ == old(out)@ + bytes@,
{
    let n: usize = bytes.len();
    let mut i: usize = 0;
    while i < n
        invariant
            n == bytes@.len(),
            i <= n,
            out@ == old(out)@ + bytes@.take(i as int),
        decreases n - i,
    {
        out.push(*slice_index_get(bytes, i));
        proof {
            assert(out@ =~= old(out)@ + bytes@.take(i + 1));
        }
        i += 1;
    }
    proof {
        assert(bytes@.take(n as int) =~= bytes@);
    }
}

/// Appends the encoding of one string.
fn encode_str(out: &mut Vec<u8>, s: &String)
    ensures
        final(out)@ == old(out)@ + spec_enc_str(s@),
        str_encodable(s@),
{
    let bytes: &[u8] = s.as_str().as_bytes();
    let len64: u64 = bytes.len() as u64;
    let lenv: Vec<u8> = u64_to_le_bytes(len64);
    push_bytes(out, lenv.as_slice());
    push_bytes(out, bytes);
    proof {
        assert(out@ =~= old(out)@ + spec_enc_str(s@));
    }
}

/// Appends the encoding of one entry.
fn encode_entry(out: &mut Vec<u8>, entry: &(String, Vec<String>))
    ensures
        final(out)@ == old(out)@ + spec_enc_entry((entry.0@, entry.1.deep_view())),
        str_encodable(entry.0@),
        entry.1.deep_view().len() <= 0xffff_ffff_ffff_ffff,
        forall|j: int|
            0 <= j < entry.1.deep_view().len() ==> str_encodable(
                #[trigger] entry.1.deep_view()[j],
            ),
{
    let ghost dv: Seq<Seq<char>> = entry.1.deep_view();
    encode_str(out, &entry.0);
    let cnt64: u64 = entry.1.len() as u64;
    let cntv: Vec<u8> = u64_to_le_bytes(cnt64);
    push_bytes(out, cntv.as_slice());
    let ghost mid: Seq<u8> = out@;
    let n: usize = entry.1.len();
    let mut j: usize = 0;
    while j < n
        invariant
            n == entry.1@.len(),
            dv == entry.1.deep_view(),
            j <= n,
            out@ == mid + spec_enc_strs(dv.take(j as int)),
            forall|k: int| 0 <= k < j ==> str_encodable(#[trigger] dv[k]),
        decreases n - j,
    {
        encode_str(out, &entry.1[j]);
        proof {
            assert(dv[j as int] == entry.1@[j as int]@);
            lemma_enc_strs_snoc(dv, j as int);
            assert(out@ =~= mid + spec_enc_strs(dv.take(j + 1)));
        }
        j += 1;
    }
    proof {
        assert(dv.take(n as int) =~= dv);
        assert(out@ =~= old(out)@ + spec_enc_entry((entry.0@, dv)));
    }
}

/// Extending the encoded prefix by one string appends that string's encoding.
proof fn lemma_enc_strs_snoc(ss: Seq<Seq<char>>, j: int)
    requires
        0 <= j < ss.len(),
    ensures
        spec_enc_strs(ss.take(j + 1)) == spec_enc_strs(ss.take(j)) + spec_enc_str(ss[j]),
    decreases j,
{
    if j == 0 {
        let a = ss.take(1);
        assert(a.len() == 1);
        assert(a.first() == ss[0]);
        assert(a.drop_first() =~= Seq::<Seq<char>>::empty());
        assert(spec_enc_strs(a.drop_first()) == Seq::<u8>::empty());
        assert(spec_enc_strs(a) == spec_enc_str(ss[0]) + Seq::<u8>::empty());
        assert(ss.take(0).len() == 0);
        assert(spec_enc_strs(ss.take(0)) == Seq::<u8>::empty());
        assert(spec_enc_str(ss[0]) + Seq::<u8>::empty() =~= Seq::<u8>::empty() + spec_enc_str(
            ss[0],
        ));
    } else {
        let a = ss.take(j + 1);
        let b = ss.take(j);
        assert(a.first() == ss[0] && b.first() == ss[0]);
        assert(a.drop_first() =~= ss.drop_first().take(j));
        assert(b.drop_first() =~= ss.drop_first().take(j - 1));
        assert(ss.drop_first()[j - 1] == ss[j]);
        lemma_enc_strs_snoc(ss.drop_first(), j - 1);
        assert(spec_enc_strs(a) =~= spec_enc_str(ss[0]) + (spec_enc_strs(ss.drop_first().take(j - 1))
            + spec_enc_str(ss[j])));
    }
}

/// Extending the encoded prefix by one entry appends that entry's encoding.
proof fn lemma_enc_entries_snoc(s: Seq<(Seq<char>, Seq<Seq<char>>)>, j: int)
    requires
        0 <= j < s.len(),
    ensures
        spec_enc_entries(s.take(j + 1)) == spec_enc_entries(s.take(j)) + spec_enc_entry(s[j]),
    decreases j,
{
    if j == 0 {
        let a = s.take(1);
        assert(a.len() == 1);
        assert(a.first() == s[0]);
        assert(a.drop_first() =~= Seq::<(Seq<char>, Seq<Seq<char>>)>::empty());
        assert(spec_enc_entries(a.drop_first()) == Seq::<u8>::empty());
        assert(spec_enc_entries(a) == spec_enc_entry(s[0]) + Seq::<u8>::empty());
        assert(s.take(0).len() == 0);
        assert(spec_enc_entries(s.take(0)) == Seq::<u8>::empty());
        assert(spec_enc_entry(s[0]) + Seq::<u8>::empty() =~= Seq::<u8>::empty() + spec_enc_entry(
            s[0],
        ));
    } else {
        let a = s.take(j + 1);
        let b = s.take(j);
        assert(a.first() == s[0] && b.first() == s[0]);
        assert(a.drop_first() =~= s.drop_first().take(j));
        assert(b.drop_first() =~= s.drop_first().take(j - 1));
        assert(s.drop_first()[j - 1] == s[j]);
        lemma_enc_entries_snoc(s.drop_first(), j - 1);
        assert(spec_enc_entries(a) =~= spec_enc_entry(s[0]) + (spec_enc_entries(
            s.drop_first().take(j - 1),
        ) + spec_enc_entry(s[j])));
    }
}

/// Encodes an entry list into the cache file byte format.
pub fn encode_entries(entries: &Vec<(String, Vec<String>)>) -> (r: Vec<u8>)
    ensures
        r@ == spec_encode(entries_view(entries@)),
        entries_encodable(entries_view(entries@)),
{
    let ghost ev: Seq<(Seq<char>, Seq<Seq<char>>)> = entries_view(entries@);
    let mut out: Vec<u8> = Vec::new();
    let cnt64: u64 = entries.len() as u64;
    let cntv: Vec<u8> = u64_to_le_bytes(cnt64);
    push_bytes(&mut out, cntv.as_slice());
    let ghost head: Seq<u8> = out@;
    let n: usize = entries.len();
    let mut i: usize = 0;
    while i < n
        invariant
            n == entries@.len(),
            ev == entries_view(entries@),
            head == spec_u64_to_le_bytes(n as u64),
            i <= n,
            out@ == head + spec_enc_entries(ev.take(i as int)),
            forall|k: int|
                0 <= k < i ==> {
                    &&& str_encodable(#[trigger] ev[k].0)
                    &&& ev[k].1.len() <= 0xffff_ffff_ffff_ffff
                    &&& forall|j: int| 0 <= j < ev[k].1.len() ==> str_encodable(#[trigger] ev[k].1[j])
                },
        decreases n - i,
    {
        encode_entry(&mut out, &entries[i]);
        proof {
            assert(ev[i as int] == (entries@[i as int].0@, entries@[i as int].1.deep_view()));
            lemma_enc_entries_snoc(ev, i as int);
            assert(out@ =~= head + spec_enc_entries(ev.take(i + 1)));
            assert forall|k: int| 0 <= k < i + 1 implies {
                &&& str_encodable(#[trigger] ev[k].0)
                &&& ev[k].1.len() <= 0xffff_ffff_ffff_ffff
                &&& (forall|j: int| 0 <= j < ev[k].1.len() ==> str_encodable(#[trigger] ev[k].1[j]))
            } by {
                if k == i {
                    assert(ev[k].0 == entries@[i as int].0@);
                    assert(ev[k].1 == entries@[i as int].1.deep_view());
                    assert(str_encodable(ev[k].0));
                    assert(ev[k].1.len() <= 0xffff_ffff_ffff_ffff);
                    assert(forall|j: int|
                        0 <= j < ev[k].1.len() ==> str_encodable(#[trigger] ev[k].1[j]));
                }
            }
        }
        i += 1;
    }
    proof {
        assert(ev.take(n as int) =~= ev);
        assert(out@ =~= spec_encode(ev));
        assert(entries_encodable(ev)) by {
            assert forall|k: int| 0 <= k < ev.len() implies {
                &&& str_encodable(#[trigger] ev[k].0)
                &&& ev[k].1.len() <= 0xffff_ffff_ffff_ffff
                &&& (forall|j: int|
                    0 <= j < ev[k].1.len() ==> str_encodable(#[trigger] ev[k].1[j]))
            } by {
                assert(0 <= k < i);
            }
        }
    }
    out
}

/// Relies on str::from_utf8: it succeeds exactly on valid UTF-8 input and
/// returns the string whose UTF-8 encoding is the given bytes; the result is
/// copied to an owned String with str::to_owned.
#[verifier::external_body]
fn string_from_utf8(bytes: &[u8]) -> (r: Option<String>)
    ensures
        r is Some <==> valid_utf8(bytes@),
        r matches Some(s) ==> encode_utf8(s@) == bytes@,
{
    match core::str::from_utf8(bytes) {
        Ok(s) => Some(s.to_owned()),
        Err(_) => None,
    }
}

/// Reads the length-prefixed u64 at `pos`, returning it with the position
/// after it.
fn decode_u64(b: &Vec<u8>, pos: usize) -> (r: Option<(u64, usize)>)
    requires
        pos <= b@.len(),
    ensures
        match r {
            Some(p) => spec_parse_u64(b@.skip(pos as int)) == Some((p.0, b@.skip(p.1 as int)))
                && pos < p.1 <= b@.len(),
            None => spec_parse_u64(b@.skip(pos as int)) is None,
        },
{
    if b.len() - pos >= 8 {
        let sl: &[u8] = slice_subrange(b.as_slice(), pos, pos + 8);
        let v: u64 = u64_from_le_bytes(sl);
        proof {
            assert(sl@ =~= b@.skip(pos as int).take(8));
            assert(b@.skip(pos as int).skip(8) =~= b@.skip(pos as int + 8));
        }
        Some((v, pos + 8))
    } else {
        None
    }
}

/// Reads the length-prefixed string at `pos`, returning it with the position
/// after it.
fn decode_str(b: &Vec<u8>, pos: usize) -> (r: Option<(String, usize)>)
    requires
        pos <= b@.len(),
    ensures
        match r {
            Some(p) => spec_parse_str(b@.skip(pos as int)) == Some((p.0@, b@.skip(p.1 as int)))
                && pos < p.1 <= b@.len(),
            None => spec_parse_str(b@.skip(pos as int)) is None,
        },
{
    match decode_u64(b, pos) {
        None => None,
        Some((n, pos2)) => {
            let remaining: usize = b.len() - pos2;
            if n <= remaining as u64 {
                let ni: usize = n as usize;
                let sl: &[u8] = slice_subrange(b.as_slice(), pos2, pos2 + ni);
                proof {
                    assert(sl@ =~= b@.skip(pos2 as int).take(n as int));
                }
                match string_from_utf8(sl) {
                    None => None,
                    Some(s) => {
                        proof {
                            encode_utf8_decode_utf8(s@);
                            assert(b@.skip(pos2 as int).skip(n as int) =~= b@.skip(
                                pos2 as int + n as int,
                            ));
                        }
                        Some((s, pos2 + ni))
                    },
                }
            } else {
                None
            }
        },
    }
}

/// Reads `count` length-prefixed strings starting at `pos`.
fn decode_strs(b: &Vec<u8>, pos: usize, count: u64) -> (r: Option<(Vec<String>, usize)>)
    requires
        pos <= b@.len(),
    ensures
        match r {
            Some(p) => spec_parse_strs(b@.skip(pos as int), count as nat) == Some(
                (p.0.deep_view(), b@.skip(p.1 as int)),
            ) && pos <= p.1 <= b@.len(),
            None => spec_parse_strs(b@.skip(pos as int), count as nat) is None,
        },
{
    let mut acc: Vec<String> = Vec::new();
    let mut cur: usize = pos;
    let mut k: u64 = 0;
    while k < count
        invariant
            pos <= cur <= b@.len(),
            k <= count,
            spec_parse_strs(b@.skip(pos as int), count as nat) == (match spec_parse_strs(
                b@.skip(cur as int),
                (count - k) as nat,
            ) {
                Some(p) => Some((acc.deep_view() + p.0, p.1)),
                None => None::<(Seq<Seq<char>>, Seq<u8>)>,
            }),
        decreases count - k,
    {
        let ghost acc0: Seq<Seq<char>> = acc.deep_view();
        match decode_str(b, cur) {
            None => {
                proof {
                    assert(spec_parse_strs(b@.skip(cur as int), (count - k) as nat) is None);
                }
                return None;
            },
            Some((s, next)) => {
                acc.push(s);
                proof {
                    assert(acc.deep_view() =~= acc0.push(s@));
                    assert forall|ss: Seq<Seq<char>>|
                        acc0 + (seq![s@] + ss) =~= acc0.push(s@) + ss by {}
                }
                cur = next;
            },
        }
        k += 1;
    }
    proof {
        assert(spec_parse_strs(b@.skip(cur as int), 0nat) == Some(
            (Seq::<Seq<char>>::empty(), b@.skip(cur as int)),
        ));
        assert(acc.deep_view() + Seq::<Seq<char>>::empty() =~= acc.deep_view());
    }
    Some((acc, cur))
}

/// Reads one ledger entry starting at `pos`.
fn decode_entry(b: &Vec<u8>, pos: usize) -> (r: Option<((String, Vec<String>), usize)>)
    requires
        pos <= b@.len(),
    ensures
        match r {
            Some(p) => spec_parse_entry(b@.skip(pos as int)) == Some(
                ((p.0.0@, p.0.1.deep_view()), b@.skip(p.1 as int)),
            ) && pos < p.1 <= b@.len(),
            None => spec_parse_entry(b@.skip(pos as int)) is None,
        },
{
    match decode_str(b, pos) {
        None => None,
        Some((exe, pos2)) => match decode_u64(b, pos2) {
            None => None,
            Some((count, pos3)) => match decode_strs(b, pos3, count) {
                None => None,
                Some((cmds, pos4)) => Some(((exe, cmds), pos4)),
            },
        },
    }
}

/// Reads `count` ledger entries starting at `pos`.
fn decode_entries(b: &Vec<u8>, pos: usize, count: u64) -> (r: Option<
    (Vec<(String, Vec<String>)>, usize),
>)
    requires
        pos <= b@.len(),
    ensures
        match r {
            Some(p) => spec_parse_entries(b@.skip(pos as int), count as nat) == Some(
                (entries_view(p.0@), b@.skip(p.1 as int)),
            ) && pos <= p.1 <= b@.len(),
            None => spec_parse_entries(b@.skip(pos as int), count as nat) is None,
        },
{
    let mut acc: Vec<(String, Vec<String>)> = Vec::new();
    let mut cur: usize = pos;
    let mut k: u64 = 0;
    while k < count
        invariant
            pos <= cur <= b@.len(),
            k <= count,
            spec_parse_entries(b@.skip(pos as int), count as nat) == (match spec_parse_entries(
                b@.skip(cur as int),
                (count - k) as nat,
            ) {
                Some(p) => Some((entries_view(acc@) + p.0, p.1)),
                None => None::<(Seq<(Seq<char>, Seq<Seq<char>>)>, Seq<u8>)>,
            }),
        decreases count - k,
    {
        let ghost acc0: Seq<(Seq<char>, Seq<Seq<char>>)> = entries_view(acc@);
        match decode_entry(b, cur) {
            None => {
                proof {
                    assert(spec_parse_entries(b@.skip(cur as int), (count - k) as nat) is None);
                }
                return None;
            },
            Some((entry, next)) => {
                let ghost ev: (Seq<char>, Seq<Seq<char>>) = (entry.0@, entry.1.deep_view());
                acc.push(entry);
                proof {
                    assert(entries_view(acc@) =~= acc0.push(ev));
                    assert forall|es: Seq<(Seq<char>, Seq<Seq<char>>)>|
                        acc0 + (seq![ev] + es) =~= acc0.push(ev) + es by {}
                }
                cur = next;
            },
        }
        k += 1;
    }
    proof {
        assert(spec_parse_entries(b@.skip(cur as int), 0nat) == Some(
            (Seq::<(Seq<char>, Seq<Seq<char>>)>::empty(), b@.skip(cur as int)),
        ));
        assert(entries_view(acc@) + Seq::<(Seq<char>, Seq<Seq<char>>)>::empty() =~= entries_view(
            acc@,
        ));
    }
    Some((acc, cur))
}

/// Decodes a whole cache file. Empty input yields the empty entry list; any
/// input that is not exactly the encoding of an entry list is rejected.
pub fn decode_ledger(b: &Vec<u8>) -> (r: Option<Vec<(String, Vec<String>)>>)
    ensures
        match r {
            Some(v) => spec_parse_ledger(b@) == Some(entries_view(v@)),
            None => spec_parse_ledger(b@) is None,
        },
{
    if b.len() == 0 {
        let empty: Vec<(String, Vec<String>)> = Vec::new();
        proof {
            assert(entries_view(empty@) =~= Seq::<(Seq<char>, Seq<Seq<char>>)>::empty());
        }
        return Some(empty);
    }
    proof {
        assert(b@.skip(0) =~= b@);
    }
    match decode_u64(b, 0) {
        None => None,
        Some((count, pos)) => match decode_entries(b, pos, count) {
            None => None,
            Some((v, pos2)) => {
                if pos2 == b.len() {
                    proof {
                        assert(b@.skip(pos2 as int).len() == 0);
                    }
                    Some(v)
                } else {
                    proof {
                        assert(b@.skip(pos2 as int).len() != 0);
                    }
                    None
                }
            },
        },
    }
}

} // verus!
