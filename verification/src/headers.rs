//! Message headers on the wire: a count, then each name and value as a
//! big-endian 16-bit byte length followed by the UTF-8 bytes.

use vstd::prelude::*;
use vstd::string::*;
use vstd::utf8::*;

use crate::codec::{get_u16, lemma_read_u16_be, put_slice, put_u16, read_u16, u16_be};
use crate::error::ProtocolError;
use crate::message::{HeaderMap, headers_view};
use crate::text::{decode_text, lemma_text_roundtrip, lossy_text, str_eq};

verus! {

/// The bytes of one name and value.
pub open spec fn entry_bytes(k: Seq<char>, v: Seq<char>) -> Seq<u8> {
    u16_be(encode_utf8(k).len() as u16) + encode_utf8(k) + u16_be(encode_utf8(v).len() as u16) + encode_utf8(v)
}

/// The bytes of the entries, in order.
pub open spec fn entries_bytes(h: Seq<(Seq<char>, Seq<char>)>) -> Seq<u8>
    decreases h.len(),
{
    if h.len() == 0 {
        Seq::empty()
    } else {
        entries_bytes(h.drop_last()) + entry_bytes(h.last().0, h.last().1)
    }
}

/// The bytes of a header map: the count, then the entries.
pub open spec fn headers_bytes(h: Seq<(Seq<char>, Seq<char>)>) -> Seq<u8> {
    u16_be(h.len() as u16) + entries_bytes(h)
}

/// The map with `k` set to `v`: an existing entry for `k` takes the new
/// value in place, otherwise the entry is appended.
pub open spec fn map_put(m: Seq<(Seq<char>, Seq<char>)>, k: Seq<char>, v: Seq<char>) -> Seq<(Seq<char>, Seq<char>)> {
    if exists|i: int| 0 <= i < m.len() && #[trigger] m[i].0 == k {
        let i = choose|i: int| 0 <= i < m.len() && #[trigger] m[i].0 == k;
        m.update(i, (k, v))
    } else {
        m.push((k, v))
    }
}

/// No two entries share a name.
pub open spec fn names_distinct(m: Seq<(Seq<char>, Seq<char>)>) -> bool {
    forall|i: int, j: int| 0 <= i < m.len() && 0 <= j < m.len() && i != j ==> #[trigger] m[i].0 != #[trigger] m[j].0
}

/// Decoding `n` more entries from `data` at `pos` into `acc`: the map, or
/// nothing when a length or the bytes it announces run past the end.
pub open spec fn decode_entries(data: Seq<u8>, pos: int, n: nat, acc: Seq<(Seq<char>, Seq<char>)>) -> Option<Seq<(Seq<char>, Seq<char>)>>
    decreases n,
{
    if n == 0 {
        Some(acc)
    } else if data.len() - pos < 2 {
        None
    } else {
        let kl = read_u16(data, pos) as int;
        if data.len() - pos - 2 < kl {
            None
        } else {
            let key = lossy_text(data.subrange(pos + 2, pos + 2 + kl));
            let p2 = pos + 2 + kl;
            if data.len() - p2 < 2 {
                None
            } else {
                let vl = read_u16(data, p2) as int;
                if data.len() - p2 - 2 < vl {
                    None
                } else {
                    let val = lossy_text(data.subrange(p2 + 2, p2 + 2 + vl));
                    decode_entries(data, p2 + 2 + vl, (n - 1) as nat, map_put(acc, key, val))
                }
            }
        }
    }
}

/// What decoding a header section gives: an empty map for fewer than two
/// bytes, otherwise the announced number of entries.
pub open spec fn decode_headers_spec(data: Seq<u8>) -> Option<Seq<(Seq<char>, Seq<char>)>> {
    if data.len() < 2 {
        Some(Seq::empty())
    } else {
        decode_entries(data, 2, read_u16(data, 0) as nat, Seq::empty())
    }
}

/// The encoded size of the entries.
pub open spec fn entries_len(h: Seq<(Seq<char>, Seq<char>)>) -> int
    decreases h.len(),
{
    if h.len() == 0 {
        0
    } else {
        entries_len(h.drop_last()) + 4 + encode_utf8(h.last().0).len() + encode_utf8(h.last().1).len()
    }
}

proof fn lemma_entries_len(h: Seq<(Seq<char>, Seq<char>)>)
    ensures
        entries_bytes(h).len() == entries_len(h),
        entries_len(h) >= 0,
    decreases h.len(),
{
    if h.len() > 0 {
        lemma_entries_len(h.drop_last());
    }
}

/// The encoding of a header map is two bytes for the count and, for each
/// entry, four length bytes and the bytes of its name and value.
pub proof fn lemma_headers_len(h: Seq<(Seq<char>, Seq<char>)>)
    ensures
        headers_bytes(h).len() == 2 + entries_len(h),
{
    lemma_entries_len(h);
}

/// Appends the encoding of `headers` to `buf`.
pub fn encode_headers(headers: &HeaderMap, buf: &mut Vec<u8>)
    ensures
        final(buf)@ == old(buf)@ + headers_bytes(headers_view(*headers)),
{
    let ghost start = buf@;
    let ghost h = headers_view(*headers);
    put_u16(buf, headers.len() as u16);
    let mut i: usize = 0;
    while i < headers.len()
        invariant
            i <= h.len(),
            h == headers_view(*headers),
            buf@ == start + u16_be(h.len() as u16) + entries_bytes(h.take(i as int)),
        decreases h.len() - i,
    {
        let e = headers.entry(i);
        let key = e.0.as_str().as_bytes();
        let val = e.1.as_str().as_bytes();
        let ghost before = buf@;
        put_u16(buf, key.len() as u16);
        put_slice(buf, key);
        put_u16(buf, val.len() as u16);
        put_slice(buf, val);
        proof {
            assert(h.take(i + 1).drop_last() =~= h.take(i as int));
            assert(h.take(i + 1).last() == h[i as int]);
            assert(buf@ =~= before + entry_bytes(h[i as int].0, h[i as int].1));
        }
        i = i + 1;
    }
    proof {
        assert(h.take(h.len() as int) =~= h);
        assert(buf@ =~= start + headers_bytes(h));
    }
}

/// Decodes a header section. Fewer than two bytes give an empty map; a
/// length, or the bytes it announces, running past the end is a
/// `DecodingError`. A name given twice keeps its last value.
pub fn decode_headers(data: &[u8]) -> (r: Result<HeaderMap, ProtocolError>)
    ensures
        match r {
            Ok(m) => decode_headers_spec(data@) == Some(headers_view(m)) && names_distinct(headers_view(m)),
            Err(ProtocolError::DecodingError(_)) => decode_headers_spec(data@) is None,
            Err(_) => false,
        },
{
    let mut headers = HeaderMap::new();
    if data.len() < 2 {
        assert(headers_view(headers) =~= Seq::<(Seq<char>, Seq<char>)>::empty());
        return Ok(headers);
    }
    let num_headers = get_u16(data, 0);
    let mut pos: usize = 2;
    let mut k: u16 = 0;
    assert(headers_view(headers) =~= Seq::<(Seq<char>, Seq<char>)>::empty());
    while k < num_headers
        invariant
            2 <= pos <= data@.len(),
            k <= num_headers,
            num_headers == read_u16(data@, 0),
            names_distinct(headers_view(headers)),
            decode_headers_spec(data@) == decode_entries(data@, pos as int, (num_headers - k) as nat, headers_view(headers)),
        decreases num_headers - k,
    {
        if data.len() - pos < 2 {
            return Err(ProtocolError::DecodingError("header key length truncated".to_owned()));
        }
        let key_len = get_u16(data, pos) as usize;
        if data.len() - pos - 2 < key_len {
            return Err(ProtocolError::DecodingError("header key data truncated".to_owned()));
        }
        let key_bytes = crate::codec::copy_range(data, pos + 2, pos + 2 + key_len);
        let key = decode_text(key_bytes.as_slice());
        let p2 = pos + 2 + key_len;
        if data.len() - p2 < 2 {
            return Err(ProtocolError::DecodingError("header value length truncated".to_owned()));
        }
        let val_len = get_u16(data, p2) as usize;
        if data.len() - p2 - 2 < val_len {
            return Err(ProtocolError::DecodingError("header value data truncated".to_owned()));
        }
        let val_bytes = crate::codec::copy_range(data, p2 + 2, p2 + 2 + val_len);
        let val = decode_text(val_bytes.as_slice());
        headers.insert(key, val);
        pos = p2 + 2 + val_len;
        k = k + 1;
    }
    Ok(headers)
}

/// The encoded size of a header map: two bytes for the count, and for each
/// entry two length bytes and the bytes of the name and of the value.
pub fn encoded_headers_len(headers: &HeaderMap) -> (r: usize)
    requires
        2 + entries_len(headers_view(*headers)) <= usize::MAX,
    ensures
        r == headers_bytes(headers_view(*headers)).len(),
        r == 2 + entries_len(headers_view(*headers)),
{
    let ghost h = headers_view(*headers);
    proof {
        lemma_entries_len(h);
    }
    let mut len: usize = 2;
    let mut i: usize = 0;
    while i < headers.len()
        invariant
            i <= h.len(),
            h == headers_view(*headers),
            2 + entries_len(h) <= usize::MAX,
            len == 2 + entries_len(h.take(i as int)),
        decreases h.len() - i,
    {
        proof {
            assert(h.take(i + 1).drop_last() =~= h.take(i as int));
            assert(h.take(i + 1).last() == h[i as int]);
            lemma_entries_len_prefix(h, i + 1);
        }
        let e = headers.entry(i);
        let kl = e.0.as_str().len();
        let vl = e.1.as_str().len();
        len = len + 4 + kl + vl;
        i = i + 1;
    }
    proof {
        assert(h.take(h.len() as int) =~= h);
    }
    len
}

/// Whether the encoded size of a header map fits a `usize`.
pub fn headers_fit(headers: &HeaderMap) -> (r: bool)
    ensures
        r == (2 + entries_len(headers_view(*headers)) <= usize::MAX),
{
    let ghost h = headers_view(*headers);
    proof {
        lemma_entries_len(h);
    }
    let mut len: usize = 2;
    let mut i: usize = 0;
    while i < headers.len()
        invariant
            i <= h.len(),
            h == headers_view(*headers),
            len == 2 + entries_len(h.take(i as int)),
        decreases h.len() - i,
    {
        proof {
            assert(h.take(i + 1).drop_last() =~= h.take(i as int));
            assert(h.take(i + 1).last() == h[i as int]);
            lemma_entries_len_prefix(h, i + 1);
            lemma_entries_len(h.take(i + 1));
        }
        let e = headers.entry(i);
        let kl = e.0.as_str().as_bytes().len();
        let vl = e.1.as_str().as_bytes().len();
        let step = match len.checked_add(4) {
            Some(a) => match a.checked_add(kl) {
                Some(b) => b.checked_add(vl),
                None => None,
            },
            None => None,
        };
        match step {
            Some(n) => {
                len = n;
            },
            None => {
                return false;
            },
        }
        i = i + 1;
    }
    proof {
        assert(h.take(h.len() as int) =~= h);
    }
    true
}

proof fn lemma_entries_len_prefix(h: Seq<(Seq<char>, Seq<char>)>, n: int)
    requires
        0 <= n <= h.len(),
    ensures
        entries_len(h.take(n)) <= entries_len(h),
    decreases h.len(),
{
    if n < h.len() {
        assert(h.drop_last().take(n) =~= h.take(n));
        lemma_entries_len_prefix(h.drop_last(), n);
        lemma_entries_len(h.drop_last());
    } else {
        assert(h.take(n) =~= h);
    }
}

/// Every name and value, and the number of entries, fit a 16-bit length.
pub open spec fn fits_wire(h: Seq<(Seq<char>, Seq<char>)>) -> bool {
    &&& h.len() < 0x10000
    &&& forall|i: int| 0 <= i < h.len() ==> encode_utf8((#[trigger] h[i]).0).len() < 0x10000 && encode_utf8(h[i].1).len() < 0x10000
}

proof fn lemma_entries_front(h: Seq<(Seq<char>, Seq<char>)>)
    requires
        h.len() > 0,
    ensures
        entries_bytes(h) == entry_bytes(h[0].0, h[0].1) + entries_bytes(h.drop_first()),
    decreases h.len(),
{
    if h.len() == 1 {
        assert(h.drop_last() =~= Seq::<(Seq<char>, Seq<char>)>::empty());
        assert(h.drop_first() =~= Seq::<(Seq<char>, Seq<char>)>::empty());
        assert(entries_bytes(h.drop_first()) == Seq::<u8>::empty());
        assert(entries_bytes(h) =~= entry_bytes(h[0].0, h[0].1) + entries_bytes(h.drop_first()));
    } else {
        lemma_entries_front(h.drop_last());
        assert(h.drop_last().drop_first() =~= h.drop_first().drop_last());
        assert(h.drop_first().last() == h.last());
        assert(h.drop_last()[0] == h[0]);
        assert(entries_bytes(h) =~= entry_bytes(h[0].0, h[0].1) + entries_bytes(h.drop_first()));
    }
}

proof fn lemma_decode_entries(x: Seq<u8>, h: Seq<(Seq<char>, Seq<char>)>, acc: Seq<(Seq<char>, Seq<char>)>, tail: Seq<u8>)
    requires
        names_distinct(acc + h),
        fits_wire(h),
    ensures
        decode_entries(x + entries_bytes(h) + tail, x.len() as int, h.len(), acc) == Some(acc + h),
    decreases h.len(),
{
    let data = x + entries_bytes(h) + tail;
    if h.len() == 0 {
        assert(acc + h =~= acc);
    } else {
        lemma_entries_front(h);
        let (k, v) = h[0];
        let kb = encode_utf8(k);
        let vb = encode_utf8(v);
        assert(encode_utf8(h[0].0).len() < 0x10000 && encode_utf8(h[0].1).len() < 0x10000);
        let pos = x.len() as int;
        let x2 = x + entry_bytes(k, v);
        assert(data =~= x2 + entries_bytes(h.drop_first()) + tail);
        assert(data.subrange(pos, pos + 2) =~= u16_be(kb.len() as u16));
        lemma_read_u16_be(data, pos, kb.len() as u16);
        assert((kb.len() as u16) as int == kb.len());
        assert(data.subrange(pos + 2, pos + 2 + kb.len()) =~= kb);
        lemma_text_roundtrip(k);
        let p2 = pos + 2 + kb.len();
        assert(data.subrange(p2, p2 + 2) =~= u16_be(vb.len() as u16));
        lemma_read_u16_be(data, p2, vb.len() as u16);
        assert((vb.len() as u16) as int == vb.len());
        assert(data.subrange(p2 + 2, p2 + 2 + vb.len()) =~= vb);
        lemma_text_roundtrip(v);
        assert(x2.len() == p2 + 2 + vb.len());
        assert forall|i: int| 0 <= i < acc.len() implies #[trigger] acc[i].0 != k by {
            assert((acc + h)[i] == acc[i]);
            assert((acc + h)[acc.len() as int] == h[0]);
        }
        assert(map_put(acc, k, v) == acc.push((k, v)));
        let rest = h.drop_first();
        assert(acc.push((k, v)) + rest =~= acc + h);
        assert forall|i: int| 0 <= i < rest.len() implies encode_utf8((#[trigger] rest[i]).0).len() < 0x10000 && encode_utf8(rest[i].1).len() < 0x10000 by {
            assert(rest[i] == h[i + 1]);
        }
        lemma_decode_entries(x2, rest, acc.push((k, v)), tail);
    }
}

/// Header round trip: the encoding of a map with distinct names, whose
/// count and whose names and values fit 16-bit lengths, decodes to the map.
pub proof fn lemma_headers_roundtrip(h: Seq<(Seq<char>, Seq<char>)>)
    requires
        names_distinct(h),
        fits_wire(h),
    ensures
        decode_headers_spec(headers_bytes(h)) == Some(h),
{
    let x = u16_be(h.len() as u16);
    let data = headers_bytes(h);
    assert(Seq::<(Seq<char>, Seq<char>)>::empty() + h =~= h);
    lemma_decode_entries(x, h, Seq::empty(), Seq::empty());
    assert(x + entries_bytes(h) + Seq::<u8>::empty() =~= data);
    assert(data.subrange(0, 2) =~= u16_be(h.len() as u16));
    lemma_read_u16_be(data, 0, h.len() as u16);
    lemma_entries_len(h);
}

} // verus!
