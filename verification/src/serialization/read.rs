//! The reader: parses container bytes back into an entity.
//!
//! Every length and bound is checked explicitly; on any structural mismatch
//! the reader returns a `ParseError` and never panics. The result is exactly
//! what the spec-level `parse_entity` grammar assigns to the input.

use crate::entity::{
    AttrView, Chunk, ChunkView, DataChunk, Entity, HeaderAttibute, HeaderChunk, HeaderView, Object,
    ObjectView, PathObject, PathView,
};
use crate::serialization::parse_error::ParseError;
use crate::serialization::wire::{
    bytes_to_chars, code_bytes_ok, data_code, date_key, empty_header, fend_code,
    fold_header_attrs, fold_one, from_be, head_code, heig_key, lemma_byte_char_eq, lemma_from_be_bounds,
    lemma_pow256_values, lemma_split_nul_found, lemma_split_nul_none, magic_bytes, parse_attr,
    parse_attrs, parse_chunk, parse_chunks, parse_entity, parse_header, parse_object,
    parse_objects, parse_points, path_type_byte, pow256, read_be, size_key, split_nul, widt_key,
};
use vstd::prelude::*;

verus! {

/// Relies on `String::from_utf8`: a buffer of ASCII bytes decodes to the
/// string with one character per byte.
#[verifier::external_body]
fn ascii_to_string(bytes: &Vec<u8>) -> (r: String)
    requires
        forall|i: int| 0 <= i < bytes@.len() ==> 0 < #[trigger] bytes@[i] < 128,
    ensures
        r@ == bytes_to_chars(bytes@),
{
    String::from_utf8(bytes.clone()).unwrap_or_default()
}

/// The bytes of `data` in `[from, to)`, as a fresh buffer.
fn copy_range(data: &Vec<u8>, from: usize, to: usize) -> (r: Vec<u8>)
    requires
        from <= to <= data@.len(),
    ensures
        r@ == data@.subrange(from as int, to as int),
{
    let mut out: Vec<u8> = Vec::new();
    let mut i: usize = from;
    while i < to
        invariant
            from <= i <= to <= data@.len(),
            out@ == data@.subrange(from as int, i as int),
        decreases to - i,
    {
        out.push(data[i]);
        proof {
            assert(data@.subrange(from as int, i + 1) =~= data@.subrange(from as int, i as int)
                .push(data@[i as int]));
        }
        i = i + 1;
    }
    out
}

/// Reads one `{ size, code, body }` record starting at `pos`; the same
/// framing serves top-level chunks and header attributes.
fn read_record_at(data: &Vec<u8>, pos: usize) -> (r: Result<(Vec<u8>, Vec<u8>, usize), ParseError>)
    requires
        pos <= data@.len(),
    ensures
        match r {
            Ok(rec) => {
                &&& rec.0@.len() == 4
                &&& code_bytes_ok(rec.0@)
                &&& pos < rec.2 <= data@.len()
                &&& parse_chunk(data@.skip(pos as int)) == Option::Some(
                    (bytes_to_chars(rec.0@), rec.1@, data@.skip(rec.2 as int)),
                )
                &&& parse_attr(data@.skip(pos as int)) == Option::Some(
                    ((AttrView { key: bytes_to_chars(rec.0@), val: rec.1@ }), data@.skip(
                        rec.2 as int,
                    )),
                )
            },
            Err(_) => {
                &&& parse_chunk(data@.skip(pos as int)) is None
                &&& parse_attr(data@.skip(pos as int)) is None
            },
        },
{
    let len: usize = data.len();
    let ghost s = data@.skip(pos as int);
    if len - pos < 8 {
        return Err(ParseError::new("Truncated record header"));
    }
    proof {
        assert(s.subrange(0, 4) =~= data@.subrange(pos as int, pos + 4));
        lemma_pow256_values();
        lemma_from_be_bounds(data@.subrange(pos as int, pos + 4));
    }
    let size64: u64 = read_be(data, pos, 4);
    let size: usize = size64 as usize;
    if size < 8 || size64 > (len - pos) as u64 {
        return Err(ParseError::new("Record size field out of range"));
    }
    // The four code bytes must be ASCII and not NUL.
    let mut code: Vec<u8> = Vec::new();
    let mut i: usize = 0;
    while i < 4
        invariant
            i <= 4,
            len == data@.len(),
            pos + 8 <= len,
            s == data@.skip(pos as int),
            code@ == data@.subrange(pos + 4, pos + 4 + i),
            forall|j: int| 0 <= j < i ==> 0 < #[trigger] code@[j] < 128,
        decreases 4 - i,
    {
        let b = data[pos + 4 + i];
        if b == 0 || b >= 128 {
            proof {
                assert(s.subrange(4, 8)[i as int] == b);
                assert(!code_bytes_ok(s.subrange(4, 8)));
            }
            return Err(ParseError::new("Record code is not ASCII"));
        }
        code.push(b);
        proof {
            assert(data@.subrange(pos + 4, pos + 4 + i + 1) =~= data@.subrange(
                pos + 4,
                pos + 4 + i,
            ).push(data@[pos + 4 + i]));
        }
        i = i + 1;
    }
    let body = copy_range(data, pos + 8, pos + size);
    proof {
        assert(code@ =~= s.subrange(4, 8));
        assert(code_bytes_ok(s.subrange(4, 8)));
        assert(s.subrange(8, size as int) =~= data@.subrange(pos + 8, pos + size));
        assert(s.skip(size as int) =~= data@.skip(pos + size));
        assert(from_be(s.subrange(0, 4)) == size);
    }
    Ok((code, body, pos + size))
}

/// Four key bytes name a four-character ASCII key exactly when they are its
/// character codes.
proof fn lemma_key_eq(kb: Seq<u8>, kc: Seq<char>)
    requires
        kb.len() == 4,
        kc.len() == 4,
        forall|i: int| 0 <= i < 4 ==> (#[trigger] kc[i] as u32) < 128,
    ensures
        (bytes_to_chars(kb) == kc) <==> (kb[0] == kc[0] as u8 && kb[1] == kc[1] as u8 && kb[2]
            == kc[2] as u8 && kb[3] == kc[3] as u8),
{
    lemma_byte_char_eq(kb[0], kc[0]);
    lemma_byte_char_eq(kb[1], kc[1]);
    lemma_byte_char_eq(kb[2], kc[2]);
    lemma_byte_char_eq(kb[3], kc[3]);
    if kb[0] == kc[0] as u8 && kb[1] == kc[1] as u8 && kb[2] == kc[2] as u8 && kb[3] == kc[3]
        as u8 {
        assert(bytes_to_chars(kb) =~= kc);
    }
    if bytes_to_chars(kb) == kc {
        assert forall|i: int| 0 <= i < 4 implies kb[i] as char == kc[i] by {
            assert(bytes_to_chars(kb)[i] == kb[i] as char);
        }
    }
}

/// Parses the payload of a HEAD chunk into a header.
fn parse_header_chunk(payload: &Vec<u8>) -> (r: Result<HeaderChunk, ParseError>)
    ensures
        match r {
            Ok(h) => parse_header(payload@) == Option::Some(h@),
            Err(_) => parse_header(payload@) is None,
        },
{
    let len: usize = payload.len();
    let mut pos: usize = 0;
    let mut creation_date: Option<u64> = None;
    let mut width: u16 = 0;
    let mut height: u16 = 0;
    let mut other_attributes: Vec<HeaderAttibute> = Vec::new();
    proof {
        assert(payload@.skip(0) =~= payload@);
        assert(other_attributes@.map_values(|a: HeaderAttibute| a@) =~= empty_header()
            .other_attributes);
        assert((HeaderView {
            creation_date,
            width,
            height,
            other_attributes: other_attributes@.map_values(|a: HeaderAttibute| a@),
        }) == empty_header());
    }
    while pos < len
        invariant
            pos <= len == payload@.len(),
            parse_header(payload@) == (match parse_attrs(payload@.skip(pos as int)) {
                Option::None => Option::<HeaderView>::None,
                Option::Some(attrs) => fold_header_attrs(
                    attrs,
                    (HeaderView {
                        creation_date,
                        width,
                        height,
                        other_attributes: other_attributes@.map_values(|a: HeaderAttibute| a@),
                    }),
                ),
            }),
        decreases len - pos,
    {
        let ghost acc = HeaderView {
            creation_date,
            width,
            height,
            other_attributes: other_attributes@.map_values(|a: HeaderAttibute| a@),
        };
        let (key, val, np) = match read_record_at(payload, pos) {
            Ok(rec) => rec,
            Err(e) => {
                return Err(e);
            },
        };
        let ghost a = AttrView { key: bytes_to_chars(key@), val: val@ };
        let ghost srest = payload@.skip(np as int);
        proof {
            lemma_key_eq(key@, size_key());
            lemma_key_eq(key@, date_key());
            lemma_key_eq(key@, widt_key());
            lemma_key_eq(key@, heig_key());
            assert(size_key()[0] != date_key()[0]);
        }
        let is_size = key[0] == 83 && key[1] == 73 && key[2] == 90 && key[3] == 69;
        let is_date = key[0] == 68 && key[1] == 65 && key[2] == 84 && key[3] == 69;
        let is_widt = key[0] == 87 && key[1] == 73 && key[2] == 68 && key[3] == 84;
        let is_heig = key[0] == 72 && key[1] == 69 && key[2] == 73 && key[3] == 71;
        proof {
            lemma_pow256_values();
        }
        if is_size {
            // The size placeholder is regenerated on write; drop it.
        } else if is_date {
            if val.len() < 8 {
                proof {
                    lemma_fold_step(payload@.skip(pos as int), a, srest, acc);
                }
                return Err(ParseError::new("Creation date attribute too short"));
            }
            proof {
                lemma_from_be_bounds(val@.subrange(0, 8));
                assert(val@.subrange(0, 8) =~= a.val.take(8));
            }
            creation_date = Some(read_be(&val, 0, 8));
        } else if is_widt {
            if val.len() < 2 {
                proof {
                    lemma_fold_step(payload@.skip(pos as int), a, srest, acc);
                }
                return Err(ParseError::new("Width attribute too short"));
            }
            proof {
                lemma_from_be_bounds(val@.subrange(0, 2));
                assert(val@.subrange(0, 2) =~= a.val.take(2));
            }
            width = read_be(&val, 0, 2) as u16;
        } else if is_heig {
            if val.len() < 2 {
                proof {
                    lemma_fold_step(payload@.skip(pos as int), a, srest, acc);
                }
                return Err(ParseError::new("Height attribute too short"));
            }
            proof {
                lemma_from_be_bounds(val@.subrange(0, 2));
                assert(val@.subrange(0, 2) =~= a.val.take(2));
            }
            height = read_be(&val, 0, 2) as u16;
        } else {
            let key_string = ascii_to_string(&key);
            other_attributes.push(HeaderAttibute { key: key_string, val });
            proof {
                let f = |x: HeaderAttibute| x@;
                assert(other_attributes@.map_values(f) =~= acc.other_attributes.push(a));
            }
        }
        proof {
            lemma_fold_step(payload@.skip(pos as int), a, srest, acc);
        }
        pos = np;
    }
    proof {
        assert(payload@.skip(len as int) =~= Seq::<u8>::empty());
    }
    Ok(HeaderChunk { creation_date, width, height, other_attributes })
}

/// One attribute step: parsing the records of `s` and folding them equals
/// folding the first attribute and going on with the rest.
proof fn lemma_fold_step(s: Seq<u8>, a: AttrView, rest: Seq<u8>, acc: HeaderView)
    requires
        s.len() > 0,
        parse_attr(s) == Option::Some((a, rest)),
    ensures
        (match parse_attrs(s) {
            Option::None => Option::<HeaderView>::None,
            Option::Some(attrs) => fold_header_attrs(attrs, acc),
        }) == (match (parse_attrs(rest), fold_one(a, acc)) {
            (Option::Some(attrs), Option::Some(acc2)) => fold_header_attrs(attrs, acc2),
            _ => Option::<HeaderView>::None,
        }),
{
    match parse_attrs(rest) {
        Option::None => {},
        Option::Some(l) => {
            assert(parse_attrs(s) == Option::Some(seq![a] + l));
            assert((seq![a] + l)[0] == a);
            assert((seq![a] + l).drop_first() =~= l);
        },
    }
}

/// Parses the payload of a DATA chunk into its object list.
fn parse_data_payload(payload: &Vec<u8>) -> (r: Result<Vec<Object>, ParseError>)
    ensures
        match r {
            Ok(os) => parse_objects(payload@) == Option::Some(os@.map_values(|o: Object| o@)),
            Err(_) => parse_objects(payload@) is None,
        },
{
    let len: usize = payload.len();
    let mut pos: usize = 0;
    let mut objects: Vec<Object> = Vec::new();
    proof {
        assert(payload@.skip(0) =~= payload@);
        assert(objects@.map_values(|o: Object| o@) =~= Seq::<ObjectView>::empty());
    }
    while pos < len
        invariant
            pos <= len == payload@.len(),
            parse_objects(payload@) == (match parse_objects(payload@.skip(pos as int)) {
                Option::None => Option::<Seq<ObjectView>>::None,
                Option::Some(l) => Option::Some(objects@.map_values(|o: Object| o@) + l),
            }),
        decreases len - pos,
    {
        let ghost s = payload@.skip(pos as int);
        let ghost before = objects@.map_values(|o: Object| o@);
        if len - pos < 8 {
            return Err(ParseError::new("Truncated object record"));
        }
        proof {
            assert(s.subrange(0, 4) =~= payload@.subrange(pos as int, pos + 4));
            lemma_pow256_values();
            lemma_from_be_bounds(payload@.subrange(pos as int, pos + 4));
        }
        let size64: u64 = read_be(payload, pos, 4);
        let size: usize = size64 as usize;
        if size < 8 || size64 > (len - pos) as u64 {
            return Err(ParseError::new("Object size field out of range"));
        }
        let type_byte = payload[pos + 4];
        proof {
            assert(s[4] == payload@[pos + 4]);
        }
        if type_byte != 80 {
            return Err(ParseError::new("Unexpected object type code"));
        }
        let c0 = payload[pos + 5];
        let c1 = payload[pos + 6];
        let c2 = payload[pos + 7];
        let ghost sub = s.subrange(8, size as int);
        let mut points: Vec<[u16; 2]> = Vec::new();
        let mut k: usize = pos + 8;
        let end: usize = pos + size;
        proof {
            assert(sub =~= payload@.subrange(pos + 8, pos + size));
            assert(payload@.subrange(k as int, end as int) =~= sub);
            assert(points@.map_values(|q: [u16; 2]| (q@[0], q@[1])) =~= Seq::<(u16, u16)>::empty());
        }
        while k < end
            invariant
                pos + 8 <= k <= end <= len == payload@.len(),
                pos < len,
                end == pos + size,
                s == payload@.skip(pos as int),
                sub == payload@.subrange(pos + 8, end as int),
                sub == s.subrange(8, size as int),
                from_be(s.subrange(0, 4)) == size,
                8 <= size <= s.len(),
                s[4] == path_type_byte(),
                before == objects@.map_values(|o: Object| o@),
                parse_objects(payload@) == (match parse_objects(s) {
                    Option::None => Option::<Seq<ObjectView>>::None,
                    Option::Some(l) => Option::Some(before + l),
                }),
                parse_points(sub) == (match parse_points(
                    payload@.subrange(k as int, end as int),
                ) {
                    Option::None => Option::<Seq<(u16, u16)>>::None,
                    Option::Some(l) => Option::Some(
                        points@.map_values(|q: [u16; 2]| (q@[0], q@[1])) + l,
                    ),
                }),
            decreases end - k,
        {
            let ghost rem = payload@.subrange(k as int, end as int);
            let ghost pts_before = points@.map_values(|q: [u16; 2]| (q@[0], q@[1]));
            if end - k < 4 {
                return Err(ParseError::new("Object record size not aligned to points"));
            }
            proof {
                lemma_pow256_values();
                assert(rem.subrange(0, 2) =~= payload@.subrange(k as int, k + 2));
                assert(rem.subrange(2, 4) =~= payload@.subrange(k + 2, k + 4));
                lemma_from_be_bounds(payload@.subrange(k as int, k + 2));
                lemma_from_be_bounds(payload@.subrange(k + 2, k + 4));
            }
            let x = read_be(payload, k, 2) as u16;
            let y = read_be(payload, k + 2, 2) as u16;
            points.push([x, y]);
            proof {
                assert(rem.skip(4) =~= payload@.subrange(k + 4, end as int));
                let f = |q: [u16; 2]| (q@[0], q@[1]);
                assert([x, y]@ =~= seq![x, y]);
                assert(points@.map_values(f) =~= pts_before.push((x, y)));
                match parse_points(payload@.subrange(k + 4, end as int)) {
                    Option::None => {},
                    Option::Some(l) => {
                        assert(parse_points(rem) == Option::Some(seq![(x, y)] + l));
                        assert(pts_before + (seq![(x, y)] + l) =~= pts_before.push((x, y)) + l);
                    },
                }
            }
            k = k + 4;
        }
        proof {
            assert(payload@.subrange(end as int, end as int) =~= Seq::<u8>::empty());
            let f = |q: [u16; 2]| (q@[0], q@[1]);
            assert(points@.map_values(f) + Seq::<(u16, u16)>::empty() =~= points@.map_values(f));
        }
        let ghost pv = PathView {
            color: (c0, c1, c2),
            points: points@.map_values(|q: [u16; 2]| (q@[0], q@[1])),
        };
        let obj = Object::Path(PathObject { color: [c0, c1, c2], points });
        proof {
            assert(s[5] == payload@[pos + 5] && s[6] == payload@[pos + 6] && s[7] == payload@[pos
                + 7]);
            assert(obj@ == ObjectView::Path(pv));
            assert(parse_object(s) == Option::Some(
                (ObjectView::Path(pv), s.skip(size as int)),
            ));
            assert(s.skip(size as int) =~= payload@.skip(pos + size));
        }
        objects.push(obj);
        proof {
            let f = |o: Object| o@;
            assert(objects@.map_values(f) =~= before.push(obj@));
            match parse_objects(payload@.skip(pos + size)) {
                Option::None => {},
                Option::Some(l) => {
                    assert(parse_objects(s) == Option::Some(seq![obj@] + l));
                    assert(before + (seq![obj@] + l) =~= before.push(obj@) + l);
                },
            }
        }
        pos = pos + size;
    }
    proof {
        assert(payload@.skip(len as int) =~= Seq::<u8>::empty());
        let f = |o: Object| o@;
        assert(objects@.map_values(f) + Seq::<ObjectView>::empty() =~= objects@.map_values(f));
    }
    Ok(objects)
}

/// Parses a whole container into an entity.
///
/// Succeeds exactly on the inputs the wire grammar accepts, and then returns
/// exactly the entity the grammar assigns to them; every other input is
/// answered with a `ParseError`.
pub fn read(data: &Vec<u8>) -> (r: Result<Entity, ParseError>)
    ensures
        match r {
            Ok(en) => parse_entity(data@) == Option::Some(en@),
            Err(_) => parse_entity(data@) is None,
        },
{
    let len: usize = data.len();
    if len < 4 {
        return Err(ParseError::new("Missing magic number"));
    }
    if data[0] != 0x0d || data[1] != 83 || data[2] != 55 || data[3] != 0x0d {
        proof {
            assert(data@.subrange(0, 4)[0] == data@[0] && data@.subrange(0, 4)[1] == data@[1]
                && data@.subrange(0, 4)[2] == data@[2] && data@.subrange(0, 4)[3] == data@[3]);
            assert(data@.subrange(0, 4) != magic_bytes());
        }
        return Err(ParseError::new("Bad magic number"));
    }
    proof {
        assert(data@.subrange(0, 4) =~= magic_bytes());
    }
    // The version string runs to its NUL terminator.
    let mut k: usize = 4;
    while k < len && data[k] != 0
        invariant
            4 <= k <= len == data@.len(),
            forall|j: int| 4 <= j < k ==> data@[j] != 0,
        decreases len - k,
    {
        k = k + 1;
    }
    if k == len {
        proof {
            assert forall|j: int| 0 <= j < data@.skip(4).len() implies data@.skip(4)[j] != 0 by {
                assert(data@.skip(4)[j] == data@[j + 4]);
            }
            lemma_split_nul_none(data@.skip(4));
        }
        return Err(ParseError::new("Version string is not terminated"));
    }
    let ghost vbs = data@.subrange(4, k as int);
    proof {
        assert forall|j: int| 0 <= j < k - 4 implies data@.skip(4)[j] != 0 by {
            assert(data@.skip(4)[j] == data@[j + 4]);
        }
        assert(data@.skip(4)[k - 4] == data@[k as int] == 0);
        lemma_split_nul_found(data@.skip(4), k - 4);
        assert(data@.skip(4).take(k - 4) =~= vbs);
        assert(data@.skip(4).skip(k - 4 + 1) =~= data@.skip(k + 1));
    }
    // The version bytes must be ASCII.
    let mut j: usize = 4;
    while j < k
        invariant
            4 <= j <= k < len == data@.len(),
            vbs == data@.subrange(4, k as int),
            data@.subrange(0, 4) == magic_bytes(),
            split_nul(data@.skip(4)) == Option::Some((vbs, data@.skip(k + 1))),
            forall|i: int| 4 <= i < k ==> data@[i] != 0,
            forall|i: int| 4 <= i < j ==> 0 < #[trigger] data@[i] < 128,
        decreases k - j,
    {
        if data[j] >= 128 {
            proof {
                assert(vbs[j - 4] == data@[j as int]);
                assert(!code_bytes_ok(vbs));
            }
            return Err(ParseError::new("Version string is not ASCII"));
        }
        j = j + 1;
    }
    let vb = copy_range(data, 4, k);
    proof {
        assert forall|i: int| 0 <= i < vb@.len() implies 0 < #[trigger] vb@[i] < 128 by {
            assert(vb@[i] == data@[i + 4]);
        }
        assert(code_bytes_ok(vbs));
    }
    let version = ascii_to_string(&vb);
    // The first chunk must be the header.
    let (hcode, hpayload, hend) = match read_record_at(data, k + 1) {
        Ok(rec) => rec,
        Err(e) => {
            return Err(e);
        },
    };
    proof {
        lemma_key_eq(hcode@, head_code());
    }
    if !(hcode[0] == 72 && hcode[1] == 69 && hcode[2] == 65 && hcode[3] == 68) {
        return Err(ParseError::new("Expected header chunk"));
    }
    let header_chunk = match parse_header_chunk(&hpayload) {
        Ok(h) => h,
        Err(e) => {
            return Err(e);
        },
    };
    // The remaining chunks, up to a FEND chunk or the end of input.
    let ghost start = hend as int;
    let mut data_chunks: Vec<DataChunk> = Vec::new();
    let mut other_chunks: Vec<Chunk> = Vec::new();
    let mut pos: usize = hend;
    let mut finished = false;
    proof {
        assert(data_chunks@.map_values(|d: DataChunk| d@) =~= Seq::<Seq<ObjectView>>::empty());
        assert(other_chunks@.map_values(|c: Chunk| c@) =~= Seq::<ChunkView>::empty());
    }
    while pos < len && !finished
        invariant
            pos <= len == data@.len(),
            parse_entity(data@) == (match parse_chunks(data@.skip(start)) {
                Option::None => Option::<crate::entity::EntityView>::None,
                Option::Some(t) => Option::Some(
                    (crate::entity::EntityView {
                        version: bytes_to_chars(vbs),
                        header_chunk: header_chunk@,
                        data_chunks: t.0,
                        other_chunks: t.1,
                    }),
                ),
            }),
            version@ == bytes_to_chars(vbs),
            !finished ==> parse_chunks(data@.skip(start)) == (match parse_chunks(
                data@.skip(pos as int),
            ) {
                Option::None => Option::<(Seq<Seq<ObjectView>>, Seq<ChunkView>)>::None,
                Option::Some(t) => Option::Some(
                    (
                        data_chunks@.map_values(|d: DataChunk| d@) + t.0,
                        other_chunks@.map_values(|c: Chunk| c@) + t.1,
                    ),
                ),
            }),
            finished ==> parse_chunks(data@.skip(start)) == Option::Some(
                (
                    data_chunks@.map_values(|d: DataChunk| d@),
                    other_chunks@.map_values(|c: Chunk| c@),
                ),
            ),
        decreases len - pos, (if finished { 0int } else { 1int }),
    {
        let ghost s = data@.skip(pos as int);
        let ghost dv = data_chunks@.map_values(|d: DataChunk| d@);
        let ghost ov = other_chunks@.map_values(|c: Chunk| c@);
        let (code, payload, np) = match read_record_at(data, pos) {
            Ok(rec) => rec,
            Err(e) => {
                return Err(e);
            },
        };
        proof {
            lemma_key_eq(code@, fend_code());
            lemma_key_eq(code@, data_code());
        }
        if code[0] == 70 && code[1] == 69 && code[2] == 78 && code[3] == 68 {
            finished = true;
            proof {
                assert(dv + Seq::<Seq<ObjectView>>::empty() =~= dv);
                assert(ov + Seq::<ChunkView>::empty() =~= ov);
            }
        } else if code[0] == 68 && code[1] == 65 && code[2] == 84 && code[3] == 65 {
            let objects = match parse_data_payload(&payload) {
                Ok(os) => os,
                Err(e) => {
                    return Err(e);
                },
            };
            let chunk = DataChunk { objects };
            proof {
                assert(chunk@ == objects@.map_values(|o: Object| o@));
            }
            data_chunks.push(chunk);
            proof {
                assert(data_chunks@.map_values(|d: DataChunk| d@) =~= dv.push(chunk@));
                match parse_chunks(data@.skip(np as int)) {
                    Option::None => {},
                    Option::Some(t) => {
                        assert(dv + (seq![chunk@] + t.0) =~= dv.push(chunk@) + t.0);
                    },
                }
            }
            pos = np;
        } else {
            let code_string = ascii_to_string(&code);
            let chunk = Chunk { code: code_string, data: payload };
            let ghost cv = chunk@;
            proof {
                assert(cv.code == bytes_to_chars(code@));
            }
            other_chunks.push(chunk);
            proof {
                assert(other_chunks@.map_values(|c: Chunk| c@) =~= ov.push(cv));
                match parse_chunks(data@.skip(np as int)) {
                    Option::None => {},
                    Option::Some(t) => {
                        assert(ov + (seq![cv] + t.1) =~= ov.push(cv) + t.1);
                    },
                }
            }
            pos = np;
        }
    }
    proof {
        if !finished {
            assert(data@.skip(len as int) =~= Seq::<u8>::empty());
            let dv = data_chunks@.map_values(|d: DataChunk| d@);
            let ov = other_chunks@.map_values(|c: Chunk| c@);
            assert(dv + Seq::<Seq<ObjectView>>::empty() =~= dv);
            assert(ov + Seq::<ChunkView>::empty() =~= ov);
        }
    }
    let entity = Entity { version, header_chunk, data_chunks, other_chunks };
    proof {
        assert(parse_entity(data@) == Option::Some(entity@));
    }
    Ok(entity)
}

} // verus!
