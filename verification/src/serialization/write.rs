//! The writer: serializes an entity into the chunked binary container.
//!
//! The produced bytes are exactly `spec_write` of the entity: magic and
//! NUL-terminated version, the HEAD chunk (whose first attribute carries the
//! total container length), the data chunks, the preserved opaque chunks,
//! and a trailing FEND chunk.

use crate::entity::{AttrView, Entity, HeaderChunk, Object, ObjectView, PathObject, PathView};
use crate::serialization::wire::{
    be_bytes, chars_to_bytes, code_ok, data_code, date_key, enc_attr, enc_attrs, enc_chunk,
    enc_data_chunks, enc_object, enc_objects, enc_other_chunks, enc_point, enc_points, enc_path,
    fend_code, head_code, header_attr_list, heig_key, lemma_be_bytes_len,
    lemma_enc_attrs_concat, lemma_enc_data_chunks_concat, lemma_enc_objects_concat,
    lemma_enc_other_chunks_concat, lemma_enc_points_concat, lemma_enc_attrs_elem_bound,
    lemma_enc_data_chunks_elem_bound, lemma_enc_objects_elem_bound,
    lemma_enc_other_chunks_elem_bound, lemma_enc_attrs_push, lemma_enc_data_chunks_push,
    lemma_enc_objects_push, lemma_enc_other_chunks_push, lemma_enc_points_push,
    lemma_enc_points_len, lemma_header_payload_len_indep, lemma_pow256_values,
    lemma_write_len_indep, magic_bytes,
    path_type_byte, pow256, push_be, size_attr, size_key, spec_write, spec_write_len,
    spec_write_with, valid_attr, valid_chunk, valid_entity, valid_object, widt_key, wire_char,
};
use vstd::prelude::*;
use vstd::string::StrSliceExecFns;

verus! {

/// Appends every byte of `v`.
fn push_bytes(out: &mut Vec<u8>, v: &Vec<u8>)
    ensures
        final(out)@ == old(out)@ + v@,
{
    let n: usize = v.len();
    let mut i: usize = 0;
    while i < n
        invariant
            i <= n == v@.len(),
            out@ == old(out)@ + v@.take(i as int),
        decreases n - i,
    {
        out.push(v[i]);
        proof {
            assert(v@.take(i + 1) =~= v@.take(i as int).push(v@[i as int]));
        }
        i = i + 1;
    }
    proof {
        assert(v@.take(n as int) =~= v@);
    }
}

/// Appends the bytes of an ASCII string, one byte per character.
fn push_ascii(out: &mut Vec<u8>, s: &String)
    requires
        forall|i: int| 0 <= i < s@.len() ==> wire_char(#[trigger] s@[i]),
    ensures
        final(out)@ == old(out)@ + chars_to_bytes(s@),
{
    proof {
        assert(vstd::utf8::is_ascii_chars(s@));
        vstd::utf8::is_ascii_chars_encode_utf8(s@);
        assert(vstd::utf8::encode_utf8(s@) =~= chars_to_bytes(s@));
    }
    let b: Vec<u8> = s.as_str().as_bytes_vec();
    push_bytes(out, &b);
}

/// Appends four literal bytes.
fn push_code4(out: &mut Vec<u8>, b0: u8, b1: u8, b2: u8, b3: u8)
    ensures
        final(out)@ == old(out)@ + seq![b0, b1, b2, b3],
{
    out.push(b0);
    out.push(b1);
    out.push(b2);
    out.push(b3);
    proof {
        assert(out@ =~= old(out)@ + seq![b0, b1, b2, b3]);
    }
}

/// Appends one attribute record: size, key, value.
fn push_attr(out: &mut Vec<u8>, key: &String, val: &Vec<u8>)
    requires
        code_ok(key@),
        8 + val@.len() < 0x100000000,
    ensures
        final(out)@ == old(out)@ + enc_attr((AttrView { key: key@, val: val@ })),
{
    proof {
        lemma_pow256_values();
    }
    push_be(out, 8 + val.len() as u64, 4);
    push_ascii(out, key);
    push_bytes(out, val);
    proof {
        assert(out@ =~= old(out)@ + enc_attr((AttrView { key: key@, val: val@ })));
    }
}

/// Appends one attribute record whose four key bytes are given literally.
fn push_attr_bytes(
    out: &mut Vec<u8>,
    k0: u8,
    k1: u8,
    k2: u8,
    k3: u8,
    val: &Vec<u8>,
    Ghost(key): Ghost<Seq<char>>,
)
    requires
        chars_to_bytes(key) == seq![k0, k1, k2, k3],
        8 + val@.len() < 0x100000000,
    ensures
        final(out)@ == old(out)@ + enc_attr((AttrView { key: key, val: val@ })),
{
    proof {
        lemma_pow256_values();
    }
    push_be(out, 8 + val.len() as u64, 4);
    push_code4(out, k0, k1, k2, k3);
    push_bytes(out, val);
    proof {
        assert(out@ =~= old(out)@ + enc_attr((AttrView { key: key, val: val@ })));
    }
}

/// The big-endian bytes of `v`, as a fresh buffer.
fn be_vec(v: u64, n: usize) -> (r: Vec<u8>)
    requires
        n <= 8,
        v < pow256(n as nat),
    ensures
        r@ == be_bytes(v as int, n as nat),
{
    let mut out: Vec<u8> = Vec::new();
    push_be(&mut out, v, n);
    proof {
        assert(out@ =~= be_bytes(v as int, n as nat));
    }
    out
}

/// The HEAD payload for `h`, with `size_val` in the size placeholder.
fn header_payload(h: &HeaderChunk, size_val: u64) -> (r: Vec<u8>)
    requires
        forall|i: int|
            0 <= i < h@.other_attributes.len() ==> valid_attr(#[trigger] h@.other_attributes[i]),
        enc_attrs(header_attr_list(h@, size_val as int)).len() <= 0x7fffffff,
    ensures
        r@ == enc_attrs(header_attr_list(h@, size_val as int)),
{
    let ghost all = header_attr_list(h@, size_val as int);
    let mut out: Vec<u8> = Vec::new();
    proof {
        lemma_pow256_values();
        assert(chars_to_bytes(size_key()) =~= seq![83u8, 73u8, 90u8, 69u8]);
        assert(chars_to_bytes(widt_key()) =~= seq![87u8, 73u8, 68u8, 84u8]);
        assert(chars_to_bytes(heig_key()) =~= seq![72u8, 69u8, 73u8, 71u8]);
        assert(chars_to_bytes(date_key()) =~= seq![68u8, 65u8, 84u8, 69u8]);
        lemma_be_bytes_len(size_val as int, 8);
        lemma_be_bytes_len(h@.width as int, 2);
        lemma_be_bytes_len(h@.height as int, 2);
    }
    let sv = be_vec(size_val, 8);
    push_attr_bytes(&mut out, 83u8, 73u8, 90u8, 69u8, &sv, Ghost(size_key()));
    let wv = be_vec(h.width as u64, 2);
    push_attr_bytes(&mut out, 87u8, 73u8, 68u8, 84u8, &wv, Ghost(widt_key()));
    let hv = be_vec(h.height as u64, 2);
    push_attr_bytes(&mut out, 72u8, 69u8, 73u8, 71u8, &hv, Ghost(heig_key()));
    let ghost fixed = seq![
        size_attr(size_val as int),
        (AttrView { key: widt_key(), val: be_bytes(h@.width as int, 2) }),
        (AttrView { key: heig_key(), val: be_bytes(h@.height as int, 2) }),
    ];
    proof {
        lemma_enc_attrs_push(Seq::empty(), fixed[0]);
        lemma_enc_attrs_push(seq![fixed[0]], fixed[1]);
        lemma_enc_attrs_push(seq![fixed[0], fixed[1]], fixed[2]);
        assert(Seq::<AttrView>::empty().push(fixed[0]) =~= seq![fixed[0]]);
        assert(seq![fixed[0]].push(fixed[1]) =~= seq![fixed[0], fixed[1]]);
        assert(seq![fixed[0], fixed[1]].push(fixed[2]) =~= fixed);
        assert(out@ =~= enc_attrs(fixed));
    }
    let ghost mut done: Seq<AttrView> = fixed;
    match h.creation_date {
        Option::Some(d) => {
            proof {
                lemma_be_bytes_len(d as int, 8);
            }
            let dv = be_vec(d, 8);
            push_attr_bytes(&mut out, 68u8, 65u8, 84u8, 69u8, &dv, Ghost(date_key()));
            proof {
                let da = AttrView { key: date_key(), val: be_bytes(d as int, 8) };
                lemma_enc_attrs_push(fixed, da);
                done = fixed.push(da);
            }
        },
        Option::None => {},
    }
    proof {
        assert(all =~= done + h@.other_attributes);
    }
    let n: usize = h.other_attributes.len();
    let mut i: usize = 0;
    while i < n
        invariant
            i <= n == h@.other_attributes.len(),
            all == done + h@.other_attributes,
            all == header_attr_list(h@, size_val as int),
            enc_attrs(all).len() <= 0x7fffffff,
            forall|j: int|
                0 <= j < h@.other_attributes.len()
                    ==> valid_attr(#[trigger] h@.other_attributes[j]),
            out@ == enc_attrs(done + h@.other_attributes.take(i as int)),
        decreases n - i,
    {
        let a = &h.other_attributes[i];
        proof {
            let ai = done.len() + i;
            lemma_enc_attrs_elem_bound(all, ai as int);
            assert(all[ai as int] == h@.other_attributes[i as int]);
            assert(a@ == h@.other_attributes[i as int]);
            assert(valid_attr(a@));
            assert(chars_to_bytes(a@.key).len() == 4);
            lemma_be_bytes_len(8 + a@.val.len() as int, 4);
            assert(enc_attr(a@).len() == 8 + a@.val.len());
        }
        push_attr(&mut out, &a.key, &a.val);
        proof {
            let part = done + h@.other_attributes.take(i as int);
            lemma_enc_attrs_push(part, a@);
            assert(part.push(a@) =~= done + h@.other_attributes.take(i + 1));
        }
        i = i + 1;
    }
    proof {
        assert(done + h@.other_attributes.take(n as int) =~= all);
    }
    out
}

/// The concatenated object records of one data chunk.
fn objects_payload(objects: &Vec<Object>) -> (r: Vec<u8>)
    requires
        enc_objects(objects@.map_values(|o: Object| o@)).len() <= 0x7fffffff,
    ensures
        r@ == enc_objects(objects@.map_values(|o: Object| o@)),
{
    let ghost ov = objects@.map_values(|o: Object| o@);
    let mut out: Vec<u8> = Vec::new();
    let n: usize = objects.len();
    let mut i: usize = 0;
    proof {
        lemma_pow256_values();
    }
    while i < n
        invariant
            i <= n == objects@.len(),
            ov == objects@.map_values(|o: Object| o@),
            enc_objects(ov).len() <= 0x7fffffff,
            out@ == enc_objects(ov.take(i as int)),
        decreases n - i,
    {
        proof {
            lemma_pow256_values();
        }
        match &objects[i] {
            Object::Path(p) => {
                let ghost pv = PathView {
                    color: (p.color@[0], p.color@[1], p.color@[2]),
                    points: p.points@.map_values(|q: [u16; 2]| (q@[0], q@[1])),
                };
                proof {
                    assert(ov[i as int] == ObjectView::Path(pv));
                    lemma_enc_objects_elem_bound(ov, i as int);
                    lemma_be_bytes_len(8 + 4 * pv.points.len() as int, 4);
                    lemma_enc_points_len(pv.points);
                    assert(enc_object(ov[i as int]).len() == 8 + 4 * pv.points.len());
                }
                let npts: usize = p.points.len();
                let size: u64 = 8 + 4 * (npts as u64);
                push_be(&mut out, size, 4);
                out.push(80u8);
                out.push(p.color[0]);
                out.push(p.color[1]);
                out.push(p.color[2]);
                let ghost base = out@;
                let mut j: usize = 0;
                while j < npts
                    invariant
                        j <= npts == p.points@.len(),
                        pv.points == p.points@.map_values(|q: [u16; 2]| (q@[0], q@[1])),
                        out@ == base + enc_points(pv.points.take(j as int)),
                    decreases npts - j,
                {
                    proof {
                        lemma_pow256_values();
                    }
                    let pt: [u16; 2] = p.points[j];
                    push_be(&mut out, pt[0] as u64, 2);
                    push_be(&mut out, pt[1] as u64, 2);
                    proof {
                        assert(pv.points[j as int] == (p.points@[j as int]@[0],
                            p.points@[j as int]@[1]));
                        lemma_enc_points_push(pv.points.take(j as int), pv.points[j as int]);
                        assert(pv.points.take(j as int).push(pv.points[j as int]) =~= pv
                            .points
                            .take(j + 1));
                        assert(out@ =~= base + enc_points(pv.points.take(j + 1)));
                    }
                    j = j + 1;
                }
                proof {
                    assert(pv.points.take(npts as int) =~= pv.points);
                    lemma_enc_objects_push(ov.take(i as int), ObjectView::Path(pv));
                    assert(ov.take(i as int).push(ov[i as int]) =~= ov.take(i + 1));
                    assert(out@ =~= enc_objects(ov.take(i as int)) + enc_object(
                        ObjectView::Path(pv),
                    ));
                }
            },
        }
        i = i + 1;
    }
    proof {
        assert(ov.take(n as int) =~= ov);
    }
    out
}

/// The concatenated DATA chunks.
fn data_chunks_bytes(ds: &Vec<crate::entity::DataChunk>) -> (r: Vec<u8>)
    requires
        enc_data_chunks(ds@.map_values(|d: crate::entity::DataChunk| d@)).len() <= 0x7fffffff,
    ensures
        r@ == enc_data_chunks(ds@.map_values(|d: crate::entity::DataChunk| d@)),
{
    let ghost dv = ds@.map_values(|d: crate::entity::DataChunk| d@);
    let mut out: Vec<u8> = Vec::new();
    let n: usize = ds.len();
    let mut i: usize = 0;
    proof {
        lemma_pow256_values();
        assert(chars_to_bytes(data_code()) =~= seq![68u8, 65u8, 84u8, 65u8]);
    }
    while i < n
        invariant
            i <= n == ds@.len(),
            dv == ds@.map_values(|d: crate::entity::DataChunk| d@),
            enc_data_chunks(dv).len() <= 0x7fffffff,
            out@ == enc_data_chunks(dv.take(i as int)),
        decreases n - i,
    {
        proof {
            lemma_pow256_values();
            assert(chars_to_bytes(data_code()) =~= seq![68u8, 65u8, 84u8, 65u8]);
            assert(dv[i as int] == ds@[i as int]@);
            lemma_enc_data_chunks_elem_bound(dv, i as int);
        }
        let payload = objects_payload(&ds[i].objects);
        proof {
            lemma_be_bytes_len(8 + payload@.len() as int, 4);
        }
        push_be(&mut out, 8 + payload.len() as u64, 4);
        push_code4(&mut out, 68u8, 65u8, 84u8, 65u8);
        push_bytes(&mut out, &payload);
        proof {
            lemma_enc_data_chunks_push(dv.take(i as int), dv[i as int]);
            assert(dv.take(i as int).push(dv[i as int]) =~= dv.take(i + 1));
            assert(out@ =~= enc_data_chunks(dv.take(i as int)) + enc_chunk(
                data_code(),
                enc_objects(dv[i as int]),
            ));
        }
        i = i + 1;
    }
    proof {
        assert(dv.take(n as int) =~= dv);
    }
    out
}

/// The concatenated opaque chunks, byte for byte as they were read.
fn other_chunks_bytes(cs: &Vec<crate::entity::Chunk>) -> (r: Vec<u8>)
    requires
        forall|i: int| 0 <= i < cs@.len() ==> valid_chunk((#[trigger] cs@[i])@),
        enc_other_chunks(cs@.map_values(|c: crate::entity::Chunk| c@)).len() <= 0x7fffffff,
    ensures
        r@ == enc_other_chunks(cs@.map_values(|c: crate::entity::Chunk| c@)),
{
    let ghost cv = cs@.map_values(|c: crate::entity::Chunk| c@);
    let mut out: Vec<u8> = Vec::new();
    let n: usize = cs.len();
    let mut i: usize = 0;
    proof {
        lemma_pow256_values();
    }
    while i < n
        invariant
            i <= n == cs@.len(),
            cv == cs@.map_values(|c: crate::entity::Chunk| c@),
            forall|j: int| 0 <= j < cs@.len() ==> valid_chunk((#[trigger] cs@[j])@),
            enc_other_chunks(cv).len() <= 0x7fffffff,
            out@ == enc_other_chunks(cv.take(i as int)),
        decreases n - i,
    {
        let c = &cs[i];
        proof {
            lemma_pow256_values();
            assert(cv[i as int] == cs@[i as int]@);
            assert(valid_chunk(c@));
            assert forall|j: int| 0 <= j < cv.len() implies code_ok(#[trigger] cv[j].code) by {
                assert(cv[j] == cs@[j]@);
                assert(valid_chunk(cs@[j]@));
            }
            lemma_enc_other_chunks_elem_bound(cv, i as int);
            lemma_be_bytes_len(8 + c@.data.len() as int, 4);
        }
        push_be(&mut out, 8 + c.data.len() as u64, 4);
        push_ascii(&mut out, &c.code);
        push_bytes(&mut out, &c.data);
        proof {
            lemma_enc_other_chunks_push(cv.take(i as int), cv[i as int]);
            assert(cv.take(i as int).push(cv[i as int]) =~= cv.take(i + 1));
            assert(out@ =~= enc_other_chunks(cv.take(i as int)) + enc_chunk(
                cv[i as int].code,
                cv[i as int].data,
            ));
        }
        i = i + 1;
    }
    proof {
        assert(cv.take(n as int) =~= cv);
    }
    out
}

/// Serializes an entity into its container bytes.
///
/// The result is exactly `spec_write` of the entity: in particular the size
/// attribute inside the HEAD chunk holds the total length of the returned
/// buffer itself.
pub fn write(entity: &Entity) -> (r: Vec<u8>)
    requires
        valid_entity(entity@),
    ensures
        r@ == spec_write(entity@),
        r@.len() == spec_write_len(entity@),
{
    let ghost e = entity@;
    proof {
        lemma_pow256_values();
        // Bound every piece by the total length of the container.
        lemma_be_bytes_len(
            8 + enc_attrs(header_attr_list(e.header_chunk, 0)).len() as int,
            4,
        );
        lemma_be_bytes_len(8, 4);
        assert(vstd::utf8::is_ascii_chars(e.version));
        vstd::utf8::is_ascii_chars_encode_utf8(e.version);
        assert(vstd::utf8::encode_utf8(e.version) =~= chars_to_bytes(e.version));
        assert forall|i: int|
            0 <= i < entity.other_chunks@.len() implies valid_chunk(
            (#[trigger] entity.other_chunks@[i])@,
        ) by {
            assert(e.other_chunks[i] == entity.other_chunks@[i]@);
            assert(valid_chunk(e.other_chunks[i]));
        }
    }
    let hp0 = header_payload(&entity.header_chunk, 0);
    let db = data_chunks_bytes(&entity.data_chunks);
    let ob = other_chunks_bytes(&entity.other_chunks);
    let vlen: usize = entity.version.as_str().len();
    let total: u64 = 4 + (vlen as u64) + 1 + 8 + (hp0.len() as u64) + (db.len() as u64)
        + (ob.len() as u64) + 8;
    proof {
        assert(total == spec_write_len(e));
        lemma_write_len_indep(e, 0, total as int);
        lemma_header_payload_len_indep(e.header_chunk, 0, total as int);
    }
    let hp = header_payload(&entity.header_chunk, total);
    let mut out: Vec<u8> = Vec::new();
    push_code4(&mut out, 0x0d, 0x53, 0x37, 0x0d);
    push_ascii(&mut out, &entity.version);
    out.push(0);
    proof {
        lemma_be_bytes_len(8 + hp@.len() as int, 4);
    }
    push_be(&mut out, 8 + hp.len() as u64, 4);
    push_code4(&mut out, 72u8, 69u8, 65u8, 68u8);
    push_bytes(&mut out, &hp);
    push_bytes(&mut out, &db);
    push_bytes(&mut out, &ob);
    push_be(&mut out, 8, 4);
    push_code4(&mut out, 70u8, 69u8, 78u8, 68u8);
    proof {
        assert(chars_to_bytes(head_code()) =~= seq![72u8, 69u8, 65u8, 68u8]);
        assert(chars_to_bytes(fend_code()) =~= seq![70u8, 69u8, 78u8, 68u8]);
        assert(magic_bytes() =~= seq![0x0du8, 0x53u8, 0x37u8, 0x0du8]);
        assert(enc_chunk(fend_code(), Seq::empty()) =~= be_bytes(8, 4) + chars_to_bytes(
            fend_code(),
        ));
        assert(out@ =~= spec_write_with(e, total as int));
        assert(out@ =~= spec_write(e));
    }
    out
}

} // verus!
