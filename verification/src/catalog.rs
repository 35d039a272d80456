//! The catalog packet: the ordered list of files a server offers.
//!
//! A catalog entry is a file name (UTF-8 bytes, never containing a null
//! byte) and a size in bytes. The packet is the entry count as an 8-byte
//! big-endian field, each size as an 8-byte big-endian field in catalog
//! order, the byte length of the name block as an 8-byte big-endian field,
//! and finally all names joined by single `0x00` separators, with no
//! leading or trailing separator. The entry's position in the catalog is
//! the file's identifier everywhere else in the protocol.

use vstd::prelude::*;

use crate::bytes_be::{be_bytes_of_u64, push_u64_be, read_u64_be, u64_of_be};

verus! {

/// One offered file: its name as UTF-8 bytes and its size in bytes.
pub struct FileEntry {
    /// File name bytes; a well-formed name holds no null byte.
    pub name: Vec<u8>,
    /// File size in bytes.
    pub size: u64,
}

impl View for FileEntry {
    type V = (Seq<u8>, u64);

    open spec fn view(&self) -> (Seq<u8>, u64) {
        (self.name@, self.size)
    }
}

/// The mathematical catalog a vector of entries stands for.
pub open spec fn cat_view(s: Seq<FileEntry>) -> Seq<(Seq<u8>, u64)> {
    s.map_values(|e: FileEntry| e@)
}

/// A name may not contain the separator byte.
pub open spec fn name_ok(name: Seq<u8>) -> bool {
    forall|i: int| 0 <= i < name.len() ==> name[i] != 0
}

/// Every name of the catalog is free of the separator byte.
pub open spec fn catalog_ok(c: Seq<(Seq<u8>, u64)>) -> bool {
    forall|i: int| 0 <= i < c.len() ==> name_ok(#[trigger] c[i].0)
}

/// All names of the catalog joined by single `0x00` separators.
pub open spec fn joined_names(c: Seq<(Seq<u8>, u64)>) -> Seq<u8>
    decreases c.len(),
{
    if c.len() == 0 {
        Seq::empty()
    } else if c.len() == 1 {
        c[0].0
    } else {
        c[0].0 + seq![0u8] + joined_names(c.drop_first())
    }
}

/// The sizes of the catalog, each as an 8-byte big-endian field.
pub open spec fn sizes_block(c: Seq<(Seq<u8>, u64)>) -> Seq<u8>
    decreases c.len(),
{
    if c.len() == 0 {
        Seq::empty()
    } else {
        be_bytes_of_u64(c[0].1) + sizes_block(c.drop_first())
    }
}

/// The wire encoding of a catalog.
pub open spec fn catalog_encoding(c: Seq<(Seq<u8>, u64)>) -> Seq<u8>
    recommends
        c.len() <= u64::MAX,
        joined_names(c).len() <= u64::MAX,
{
    be_bytes_of_u64(c.len() as u64) + sizes_block(c) + be_bytes_of_u64(
        joined_names(c).len() as u64,
    ) + joined_names(c)
}

/// The longest separator-free prefix of `bytes`: the first name field.
pub open spec fn take_name(bytes: Seq<u8>) -> Seq<u8>
    decreases bytes.len(),
{
    if bytes.len() == 0 || bytes[0] == 0 {
        Seq::empty()
    } else {
        seq![bytes[0]] + take_name(bytes.drop_first())
    }
}

/// Split a name block into exactly `n` separator-free fields, or `None`
/// when the block does not consist of exactly `n` such fields joined by
/// single separators.
pub open spec fn parse_names(bytes: Seq<u8>, n: nat) -> Option<Seq<Seq<u8>>>
    decreases n,
{
    if n == 0 {
        if bytes.len() == 0 {
            Some(Seq::empty())
        } else {
            None
        }
    } else {
        let name = take_name(bytes);
        if n == 1 {
            if name.len() == bytes.len() {
                Some(seq![name])
            } else {
                None
            }
        } else if name.len() < bytes.len() {
            match parse_names(bytes.subrange(name.len() as int + 1, bytes.len() as int), (n - 1) as nat) {
                Some(rest) => Some(seq![name] + rest),
                None => None,
            }
        } else {
            None
        }
    }
}

/// The catalog framed at the start of `data` together with the position
/// just past it, or `None` when the bytes are truncated or the name block
/// does not split into exactly as many fields as the count promises.
pub open spec fn catalog_decoding(data: Seq<u8>) -> Option<(Seq<(Seq<u8>, u64)>, int)> {
    if data.len() < 8 {
        None
    } else {
        let n = u64_of_be(data.subrange(0, 8)) as int;
        if data.len() < 8 + 8 * n {
            None
        } else {
            let sizes_end = 8 + 8 * n;
            if data.len() < sizes_end + 8 {
                None
            } else {
                let nlen = u64_of_be(data.subrange(sizes_end, sizes_end + 8)) as int;
                if data.len() < sizes_end + 8 + nlen {
                    None
                } else {
                    match parse_names(
                        data.subrange(sizes_end + 8, sizes_end + 8 + nlen),
                        n as nat,
                    ) {
                        Some(names) => Some(
                            (
                                Seq::new(
                                    n as nat,
                                    |i: int|
                                        (
                                            names[i],
                                            u64_of_be(data.subrange(8 + 8 * i, 8 + 8 * i + 8)),
                                        ),
                                ),
                                sizes_end + 8 + nlen,
                            ),
                        ),
                        None => None,
                    }
                }
            }
        }
    }
}

/// Appending an entry extends the sizes block by that entry's size field.
proof fn lemma_sizes_snoc(c: Seq<(Seq<u8>, u64)>, e: (Seq<u8>, u64))
    ensures
        sizes_block(c.push(e)) == sizes_block(c) + be_bytes_of_u64(e.1),
    decreases c.len(),
{
    let s = c.push(e);
    if c.len() == 0 {
        assert(s[0] == e);
        assert(s.drop_first() =~= Seq::<(Seq<u8>, u64)>::empty());
        assert(sizes_block(s) == be_bytes_of_u64(e.1) + sizes_block(s.drop_first()));
        assert(sizes_block(s) =~= sizes_block(c) + be_bytes_of_u64(e.1));
    } else {
        assert(s[0] == c[0]);
        assert(s.drop_first() =~= c.drop_first().push(e));
        lemma_sizes_snoc(c.drop_first(), e);
        assert(sizes_block(s) == be_bytes_of_u64(c[0].1) + (sizes_block(c.drop_first())
            + be_bytes_of_u64(e.1)));
        assert(sizes_block(s) =~= sizes_block(c) + be_bytes_of_u64(e.1));
    }
}

/// Appending an entry extends the joined names by a separator and the
/// entry's name.
proof fn lemma_joined_snoc(c: Seq<(Seq<u8>, u64)>, e: (Seq<u8>, u64))
    requires
        c.len() >= 1,
    ensures
        joined_names(c.push(e)) == joined_names(c) + seq![0u8] + e.0,
    decreases c.len(),
{
    let s = c.push(e);
    if c.len() == 1 {
        assert(s[0] == c[0]);
        assert(s.drop_first() =~= seq![e]);
        assert(joined_names(s) == s[0].0 + seq![0u8] + joined_names(s.drop_first()));
        assert(joined_names(seq![e]) == e.0);
        assert(joined_names(s) =~= joined_names(c) + seq![0u8] + e.0);
    } else {
        assert(s[0] == c[0]);
        assert(s.drop_first() =~= c.drop_first().push(e));
        lemma_joined_snoc(c.drop_first(), e);
        assert(joined_names(s) == s[0].0 + seq![0u8] + (joined_names(c.drop_first()) + seq![0u8]
            + e.0));
        assert(joined_names(s) =~= joined_names(c) + seq![0u8] + e.0);
    }
}

/// The sizes block is eight bytes per entry, and the field at slot `i`
/// encodes the size of entry `i`.
proof fn lemma_sizes_block_fields(c: Seq<(Seq<u8>, u64)>)
    ensures
        sizes_block(c).len() == 8 * c.len(),
        forall|i: int|
            0 <= i < c.len() ==> sizes_block(c).subrange(8 * i, 8 * i + 8) == be_bytes_of_u64(
                #[trigger] c[i].1,
            ),
    decreases c.len(),
{
    if c.len() > 0 {
        lemma_sizes_block_fields(c.drop_first());
        assert forall|i: int| 0 <= i < c.len() implies sizes_block(c).subrange(8 * i, 8 * i + 8)
            == be_bytes_of_u64(#[trigger] c[i].1) by {
            if i == 0 {
                assert(sizes_block(c).subrange(0, 8) =~= be_bytes_of_u64(c[0].1));
            } else {
                assert(sizes_block(c).subrange(8 * i, 8 * i + 8) =~= sizes_block(
                    c.drop_first(),
                ).subrange(8 * (i - 1), 8 * (i - 1) + 8));
                assert(c.drop_first()[i - 1] == c[i]);
            }
        }
    }
}

/// A separator-free sequence is its own first name field.
proof fn lemma_take_name_all(b: Seq<u8>)
    requires
        name_ok(b),
    ensures
        take_name(b) == b,
    decreases b.len(),
{
    if b.len() != 0 {
        lemma_take_name_all(b.drop_first());
        assert(take_name(b) =~= b);
    }
}

/// The first name field of a separator-free name followed by a separator
/// is exactly that name.
proof fn lemma_take_name_prefix(a: Seq<u8>, rest: Seq<u8>)
    requires
        name_ok(a),
    ensures
        take_name(a + seq![0u8] + rest) == a,
    decreases a.len(),
{
    let b = a + seq![0u8] + rest;
    if a.len() == 0 {
        assert(b[0] == 0);
    } else {
        assert(b.drop_first() =~= a.drop_first() + seq![0u8] + rest);
        lemma_take_name_prefix(a.drop_first(), rest);
        assert(take_name(b) =~= a);
    }
}

/// A successful split yields exactly `n` fields.
proof fn lemma_parse_names_len(bytes: Seq<u8>, n: nat)
    requires
        parse_names(bytes, n) is Some,
    ensures
        parse_names(bytes, n).unwrap().len() == n,
    decreases n,
{
    if n > 1 {
        let name = take_name(bytes);
        lemma_parse_names_len(bytes.subrange(name.len() as int + 1, bytes.len() as int), (n - 1) as nat);
    }
}

/// Splitting the joined names of a catalog with separator-free names
/// recovers exactly those names.
proof fn lemma_parse_joined(c: Seq<(Seq<u8>, u64)>)
    requires
        catalog_ok(c),
    ensures
        parse_names(joined_names(c), c.len()) == Some(c.map_values(|e: (Seq<u8>, u64)| e.0)),
    decreases c.len(),
{
    let names = c.map_values(|e: (Seq<u8>, u64)| e.0);
    if c.len() == 0 {
        assert(names =~= Seq::<Seq<u8>>::empty());
    } else if c.len() == 1 {
        lemma_take_name_all(c[0].0);
        assert(seq![take_name(joined_names(c))] =~= names);
    } else {
        let tail = c.drop_first();
        assert(catalog_ok(tail)) by {
            assert(forall|i: int| 0 <= i < tail.len() ==> tail[i] == c[i + 1]);
        }
        lemma_parse_joined(tail);
        let b = joined_names(c);
        lemma_take_name_prefix(c[0].0, joined_names(tail));
        assert(take_name(b) == c[0].0);
        assert(b.subrange(c[0].0.len() as int + 1, b.len() as int) =~= joined_names(tail));
        let rest = tail.map_values(|e: (Seq<u8>, u64)| e.0);
        assert(seq![c[0].0] + rest =~= names);
    }
}

/// Encoding a catalog whose names are free of null bytes and decoding it
/// again, from a stream that may carry further bytes, yields the original
/// catalog and consumes exactly the encoding.
pub proof fn lemma_catalog_round_trip(c: Seq<(Seq<u8>, u64)>, suf: Seq<u8>)
    requires
        catalog_ok(c),
        c.len() <= u64::MAX,
        joined_names(c).len() <= u64::MAX,
    ensures
        catalog_decoding(catalog_encoding(c) + suf) == Some(
            (c, catalog_encoding(c).len() as int),
        ),
{
    let enc = catalog_encoding(c);
    let data = enc + suf;
    let n = c.len() as int;
    let jn = joined_names(c);
    lemma_sizes_block_fields(c);
    crate::bytes_be::lemma_u64_be_round_trip(c.len() as u64);
    crate::bytes_be::lemma_u64_be_round_trip(jn.len() as u64);
    assert(data.subrange(0, 8) =~= be_bytes_of_u64(c.len() as u64));
    let sizes_end = 8 + 8 * n;
    assert(data.subrange(sizes_end, sizes_end + 8) =~= be_bytes_of_u64(jn.len() as u64));
    assert(data.subrange(sizes_end + 8, sizes_end + 8 + jn.len()) =~= jn);
    lemma_parse_joined(c);
    lemma_parse_names_len(jn, c.len());
    let names = c.map_values(|e: (Seq<u8>, u64)| e.0);
    assert forall|i: int| 0 <= i < n implies data.subrange(8 + 8 * i, 8 + 8 * i + 8)
        == be_bytes_of_u64(c[i].1) by {
        assert(data.subrange(8 + 8 * i, 8 + 8 * i + 8) =~= sizes_block(c).subrange(
            8 * i,
            8 * i + 8,
        ));
    }
    assert forall|i: int| 0 <= i < n implies u64_of_be(data.subrange(8 + 8 * i, 8 + 8 * i + 8))
        == c[i].1 by {
        crate::bytes_be::lemma_u64_be_round_trip(c[i].1);
    }
    let decoded = Seq::new(
        c.len(),
        |i: int| (names[i], u64_of_be(data.subrange(8 + 8 * i, 8 + 8 * i + 8))),
    );
    assert(decoded =~= c);
}

/// Encode a catalog as its wire bytes.
pub fn encode_catalog(entries: &Vec<FileEntry>) -> (r: Vec<u8>)
    ensures
        r@ == catalog_encoding(cat_view(entries@)),
{
    let c = Ghost(cat_view(entries@));
    let n = entries.len();
    let mut r: Vec<u8> = Vec::new();
    push_u64_be(&mut r, n as u64);

    let mut i: usize = 0;
    while i < n
        invariant
            n == entries@.len(),
            c@ == cat_view(entries@),
            i <= n,
            r@ == be_bytes_of_u64(n as u64) + sizes_block(c@.take(i as int)),
        decreases n - i,
    {
        push_u64_be(&mut r, entries[i].size);
        proof {
            assert(c@.take(i as int).push(c@[i as int]) =~= c@.take(i + 1));
            lemma_sizes_snoc(c@.take(i as int), c@[i as int]);
        }
        i = i + 1;
    }
    proof {
        assert(c@.take(n as int) =~= c@);
    }

    let mut names: Vec<u8> = Vec::new();
    let mut i: usize = 0;
    while i < n
        invariant
            n == entries@.len(),
            c@ == cat_view(entries@),
            i <= n,
            names@ == joined_names(c@.take(i as int)),
        decreases n - i,
    {
        if i > 0 {
            names.push(0);
        }
        names.extend_from_slice(entries[i].name.as_slice());
        proof {
            assert(c@.take(i as int).push(c@[i as int]) =~= c@.take(i + 1));
            if i > 0 {
                lemma_joined_snoc(c@.take(i as int), c@[i as int]);
            }
            assert(names@ =~= joined_names(c@.take(i + 1)));
        }
        i = i + 1;
    }
    proof {
        assert(c@.take(n as int) =~= c@);
    }

    push_u64_be(&mut r, names.len() as u64);
    r.append(&mut names);
    proof {
        assert(r@ =~= catalog_encoding(c@));
    }
    r
}

/// Split a name block into exactly `n` fields.
fn decode_names(block: &[u8], n: usize) -> (r: Option<Vec<Vec<u8>>>)
    ensures
        r is Some <==> parse_names(block@, n as nat) is Some,
        r matches Some(v) ==> parse_names(block@, n as nat) == Some(
            v@.map_values(|x: Vec<u8>| x@),
        ),
    decreases n,
{
    if n == 0 {
        if block.len() == 0 {
            let v: Vec<Vec<u8>> = Vec::new();
            proof {
                assert(v@.map_values(|x: Vec<u8>| x@) =~= Seq::<Seq<u8>>::empty());
            }
            Some(v)
        } else {
            None
        }
    } else {
        let len = block.len();
        let mut j: usize = 0;
        while j < len && *vstd::slice::slice_index_get(block, j) != 0
            invariant
                len == block@.len(),
                j <= len,
                forall|k: int| 0 <= k < j ==> block@[k] != 0,
            decreases len - j,
        {
            j = j + 1;
        }
        proof {
            lemma_take_name_scan(block@, j as int);
        }
        if n == 1 {
            if j == len {
                let name = vstd::slice::slice_to_vec(block);
                let mut v: Vec<Vec<u8>> = Vec::new();
                v.push(name);
                proof {
                    assert(block@.subrange(0, j as int) =~= block@);
                    assert(v@.map_values(|x: Vec<u8>| x@) =~= seq![take_name(block@)]);
                }
                Some(v)
            } else {
                None
            }
        } else if j < len {
            let tail = vstd::slice::slice_subrange(block, j + 1, len);
            match decode_names(tail, n - 1) {
                Some(mut rest) => {
                    let name = vstd::slice::slice_to_vec(
                        vstd::slice::slice_subrange(block, 0, j),
                    );
                    let mut v: Vec<Vec<u8>> = Vec::new();
                    v.push(name);
                    v.append(&mut rest);
                    proof {
                        let parsed_rest = parse_names(tail@, (n - 1) as nat).unwrap();
                        assert(v@.map_values(|x: Vec<u8>| x@) =~= seq![take_name(block@)]
                            + parsed_rest);
                    }
                    Some(v)
                },
                None => None,
            }
        } else {
            None
        }
    }
}

/// A scan that stops at the block's end or at its first separator finds
/// the first name field.
proof fn lemma_take_name_scan(b: Seq<u8>, j: int)
    requires
        0 <= j <= b.len(),
        forall|k: int| 0 <= k < j ==> b[k] != 0,
        j == b.len() || b[j] == 0,
    ensures
        take_name(b) == b.subrange(0, j),
    decreases j,
{
    if j == 0 {
        assert(take_name(b) =~= b.subrange(0, 0));
    } else {
        lemma_take_name_scan(b.drop_first(), j - 1);
        assert(take_name(b) =~= b.subrange(0, j));
    }
}

/// Decode the catalog framed at the start of `data`; also returns the
/// position just past it. `None` when the bytes are truncated or the name
/// block is malformed.
pub fn decode_catalog(data: &[u8]) -> (r: Option<(Vec<FileEntry>, usize)>)
    ensures
        r is Some <==> catalog_decoding(data@) is Some,
        r matches Some((c, used)) ==> catalog_decoding(data@) == Some(
            (cat_view(c@), used as int),
        ),
{
    let total = data.len();
    if total < 8 {
        return None;
    }
    let n64 = read_u64_be(data, 0);
    proof {
        assert(data@.subrange(0, 8) =~= data@.subrange(0int, 0int + 8));
    }
    let rest = (total - 8) as u64;
    if n64 > rest / 8 {
        proof {
            assert(rest < 8 * (rest / 8) + 8) by (nonlinear_arith);
            assert(8 * (rest / 8 + 1) <= 8 * n64) by (nonlinear_arith)
                requires
                    rest / 8 + 1 <= n64,
            ;
        }
        return None;
    }
    proof {
        assert(rest / 8 <= rest) by (nonlinear_arith);
        assert(8 * n64 <= 8 * (rest / 8) <= rest) by (nonlinear_arith)
            requires
                n64 <= rest / 8,
        ;
    }
    let n = n64 as usize;
    let mut sizes: Vec<u64> = Vec::new();
    let mut i: usize = 0;
    while i < n
        invariant
            total == data@.len(),
            n == n64,
            8 + 8 * n <= total,
            i <= n,
            sizes@.len() == i,
            forall|k: int|
                0 <= k < i ==> sizes@[k] == u64_of_be(
                    data@.subrange(8 + 8 * k, 8 + 8 * k + 8),
                ),
        decreases n - i,
    {
        let s = read_u64_be(data, 8 + 8 * i);
        sizes.push(s);
        i = i + 1;
    }
    let sizes_end = 8 + 8 * n;
    if total - sizes_end < 8 {
        return None;
    }
    let nlen64 = read_u64_be(data, sizes_end);
    let avail = (total - sizes_end - 8) as u64;
    if nlen64 > avail {
        return None;
    }
    let nlen = nlen64 as usize;
    let block = vstd::slice::slice_subrange(data, sizes_end + 8, sizes_end + 8 + nlen);
    match decode_names(block, n) {
        Some(names) => {
            let ghost parsed = parse_names(block@, n as nat).unwrap();
            proof {
                lemma_parse_names_len(block@, n as nat);
            }
            let mut out: Vec<FileEntry> = Vec::new();
            let mut names = names;
            let mut i: usize = 0;
            while i < n
                invariant
                    n == names@.len() + i,
                    sizes@.len() == n,
                    parsed.len() == n,
                    out@.len() == i,
                    forall|k: int|
                        0 <= k < i ==> #[trigger] out@[k]@ == (parsed[k], sizes@[k]),
                    forall|k: int| 0 <= k < names@.len() ==> names@[k]@ == parsed[k + i],
                decreases n - i,
            {
                let name = names.remove(0);
                let size = sizes[i];
                out.push(FileEntry { name, size });
                i = i + 1;
            }
            proof {
                let full = catalog_decoding(data@).unwrap().0;
                assert(cat_view(out@) =~= full);
            }
            Some((out, sizes_end + 8 + nlen))
        },
        None => None,
    }
}

} // verus!
