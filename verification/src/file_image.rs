//! The bytes of a file as writes leave them, and the facts about
//! little-endian values and encoded entries that reading them relies on.
use vstd::prelude::*;

use crate::format::{
    le_u16, le_u32, le_u64, lemma_u16_roundtrip, lemma_u32_roundtrip, lemma_u64_roundtrip, u16_bytes, u32_bytes,
    u64_bytes,
};
use crate::reader::{entry_at, EntryModel};
use crate::writer::{
    entries_bytes, entry_bytes, lemma_entries_bytes_len, slots_sized, u32s_bytes, u64s_bytes, zeros, RawEntry,
    OpModel,
};


verus! {

/// `file` after writing `bytes` at `offset`, first grown with zero bytes
/// when the write runs past its end.
pub open spec fn write_at(file: Seq<u8>, offset: int, bytes: Seq<u8>) -> Seq<u8> {
    let end = offset + bytes.len();
    let grown = if file.len() < end {
        file + zeros(end - file.len())
    } else {
        file
    };
    Seq::new(grown.len(), |i: int| if offset <= i < end { bytes[i - offset] } else { grown[i] })
}

/// `file` after the writes `ops`, in order.
pub open spec fn apply_ops(file: Seq<u8>, ops: Seq<OpModel>) -> Seq<u8>
    decreases ops.len(),
{
    if ops.len() == 0 {
        file
    } else {
        write_at(apply_ops(file, ops.drop_last()), ops.last().offset as int, ops.last().bytes)
    }
}

/// Every write of `ops` ends within the address space.
pub open spec fn ops_addressable(ops: Seq<OpModel>) -> bool {
    forall|i: int| 0 <= i < ops.len() ==> (#[trigger] ops[i]).offset + ops[i].bytes.len() <= usize::MAX
}


/// What the reader decodes from an encoded entry.
pub open spec fn decoded(e: RawEntry) -> EntryModel {
    EntryModel { code: e.code, ty: e.ty, count: e.count, slot: le_u64(e.slot, 0) as u64 }
}

/// Reading little-endian values only looks at the bytes read.
pub proof fn lemma_le_window(b: Seq<u8>, o: int, c: Seq<u8>, p: int, n: int)
    requires
        0 <= o,
        0 <= p,
        o + n <= b.len(),
        p + n <= c.len(),
        b.subrange(o, o + n) == c.subrange(p, p + n),
    ensures
        n >= 2 ==> le_u16(b, o) == le_u16(c, p),
        n >= 8 ==> le_u64(b, o) == le_u64(c, p),
{
    let w = b.subrange(o, o + n);
    let v = c.subrange(p, p + n);
    if n >= 2 {
        assert(w[0] == v[0] && w[1] == v[1]);
    }
    if n >= 8 {
        assert(w[0] == v[0] && w[1] == v[1] && w[2] == v[2] && w[3] == v[3]);
        assert(w[4] == v[4] && w[5] == v[5] && w[6] == v[6] && w[7] == v[7]);
    }
}

/// The entry read at the start of an encoded entry is the entry encoded.
pub proof fn lemma_entry_read(pre: Seq<u8>, e: RawEntry, post: Seq<u8>, i: int)
    requires
        e.slot.len() == 8,
        pre.len() == 8 + 20 * i,
        0 <= i,
    ensures
        entry_at(pre + entry_bytes(e.code, e.ty, e.count, e.slot) + post, i) == decoded(e),
{
    let raw = entry_bytes(e.code, e.ty, e.count, e.slot);
    let body = pre + raw + post;
    let o = pre.len() as int;
    lemma_u16_roundtrip(e.code, Seq::empty(), u16_bytes(e.ty) + u64_bytes(e.count) + e.slot);
    lemma_u16_roundtrip(e.ty, u16_bytes(e.code), u64_bytes(e.count) + e.slot);
    lemma_u64_roundtrip(e.count, u16_bytes(e.code) + u16_bytes(e.ty), e.slot);
    assert(raw =~= Seq::<u8>::empty() + u16_bytes(e.code) + (u16_bytes(e.ty) + u64_bytes(e.count) + e.slot));
    assert(raw =~= u16_bytes(e.code) + u16_bytes(e.ty) + (u64_bytes(e.count) + e.slot));
    assert(raw =~= u16_bytes(e.code) + u16_bytes(e.ty) + u64_bytes(e.count) + e.slot);
    assert(raw.len() == 20);
    assert(body.subrange(o, o + 20) =~= raw.subrange(0, 20));
    assert(body.subrange(o + 2, o + 20) =~= raw.subrange(2, 20));
    assert(body.subrange(o + 4, o + 20) =~= raw.subrange(4, 20));
    assert(body.subrange(o + 12, o + 20) =~= raw.subrange(12, 20));
    lemma_le_window(body, o, raw, 0, 20);
    lemma_le_window(body, o + 2, raw, 2, 18);
    lemma_le_window(body, o + 4, raw, 4, 16);
    lemma_le_window(body, o + 12, raw, 12, 8);
    assert(raw.subrange(12, 20) =~= e.slot.subrange(0, 8));
    lemma_le_window(raw, 12, e.slot, 0, 8);
}

/// Every entry of an encoded list, placed after the 8-byte entry count, is
/// read back as encoded.
pub proof fn lemma_entries_read(pre: Seq<u8>, es: Seq<RawEntry>, post: Seq<u8>, i: int)
    requires
        pre.len() == 8,
        slots_sized(es),
        0 <= i < es.len(),
    ensures
        entry_at(pre + entries_bytes(es) + post, i) == decoded(es[i]),
    decreases es.len(),
{
    let last = es.last();
    let front = es.drop_last();
    let raw = entry_bytes(last.code, last.ty, last.count, last.slot);
    assert(slots_sized(front));
    if i < es.len() - 1 {
        lemma_entries_read(pre, front, raw + post, i);
        assert(pre + entries_bytes(es) + post =~= pre + entries_bytes(front) + (raw + post));
        assert(front[i] == es[i]);
    } else {
        lemma_entries_bytes_len(front);
        assert(pre + entries_bytes(es) + post =~= (pre + entries_bytes(front)) + raw + post);
        lemma_entry_read(pre + entries_bytes(front), last, post, i);
    }
}



pub proof fn lemma_le_u32_zeros(b: Seq<u8>, o: int)
    requires
        0 <= o,
        o + 4 <= b.len(),
        b[o] == 0 && b[o + 1] == 0 && b[o + 2] == 0 && b[o + 3] == 0,
    ensures
        le_u32(b, o) == 0,
{
}

/// The value read from the slot of a 32-bit scalar.
pub proof fn lemma_slot_u32(v: u32)
    ensures
        le_u64(u32_bytes(v) + zeros(4), 0) == v,
        (u32_bytes(v) + zeros(4)).len() == 8,
{
    let b = u32_bytes(v) + zeros(4);
    lemma_u32_roundtrip(v, Seq::empty(), zeros(4));
    assert(Seq::<u8>::empty() + u32_bytes(v) + zeros(4) =~= b);
    lemma_le_u32_zeros(b, 4);
}

/// The value read from the slot of a 16-bit scalar.
pub proof fn lemma_slot_u16(v: u16)
    ensures
        le_u64(u16_bytes(v) + zeros(6), 0) == v,
        (u16_bytes(v) + zeros(6)).len() == 8,
{
    let b = u16_bytes(v) + zeros(6);
    lemma_u16_roundtrip(v, Seq::empty(), zeros(6));
    assert(Seq::<u8>::empty() + u16_bytes(v) + zeros(6) =~= b);
    lemma_le_u32_zeros(b, 4);
    assert(b[2] == 0 && b[3] == 0);
}

/// The value read from a slot holding two 16-bit values.
pub proof fn lemma_slot_u16_pair(a: u16, c: u16)
    ensures
        le_u64(u16_bytes(a) + u16_bytes(c) + zeros(4), 0) == a + c * 0x1_0000,
        (u16_bytes(a) + u16_bytes(c) + zeros(4)).len() == 8,
{
    let b = u16_bytes(a) + u16_bytes(c) + zeros(4);
    lemma_u16_roundtrip(a, Seq::empty(), u16_bytes(c) + zeros(4));
    lemma_u16_roundtrip(c, u16_bytes(a), zeros(4));
    assert(Seq::<u8>::empty() + u16_bytes(a) + (u16_bytes(c) + zeros(4)) =~= b);
    lemma_le_u32_zeros(b, 4);
}

/// The value read from a slot holding two 32-bit values.
pub proof fn lemma_slot_u32_pair(a: u32, c: u32)
    ensures
        le_u64(u32_bytes(a) + u32_bytes(c), 0) == a + c * 0x1_0000_0000,
        (u32_bytes(a) + u32_bytes(c)).len() == 8,
{
    lemma_u32_roundtrip(a, Seq::empty(), u32_bytes(c));
    lemma_u32_roundtrip(c, u32_bytes(a), Seq::empty());
    assert(Seq::<u8>::empty() + u32_bytes(a) + u32_bytes(c) =~= u32_bytes(a) + u32_bytes(c));
    assert(u32_bytes(a) + u32_bytes(c) + Seq::<u8>::empty() =~= u32_bytes(a) + u32_bytes(c));
}

/// The value read from an 8-byte slot holding one 64-bit value.
pub proof fn lemma_slot_u64(v: u64)
    ensures
        le_u64(u64_bytes(v), 0) == v,
        u64_bytes(v).len() == 8,
{
    lemma_u64_roundtrip(v, Seq::empty(), Seq::empty());
    assert(Seq::<u8>::empty() + u64_bytes(v) + Seq::<u8>::empty() =~= u64_bytes(v));
}

/// The `k`-th value of an array of little-endian `u64` values.
pub proof fn lemma_u64s_read(s: Seq<u64>, k: int)
    requires
        0 <= k < s.len(),
    ensures
        u64s_bytes(s).len() == 8 * s.len(),
        le_u64(u64s_bytes(s), 8 * k) == s[k],
    decreases s.len(),
{
    let front = s.drop_last();
    if s.len() == 1 {
        assert(front.len() == 0);
        assert(u64s_bytes(front) =~= Seq::<u8>::empty());
        lemma_u64_roundtrip(s.last(), Seq::empty(), Seq::empty());
        assert(u64s_bytes(s) =~= Seq::<u8>::empty() + u64_bytes(s.last()) + Seq::<u8>::empty());
    } else {
        if k < s.len() - 1 {
            lemma_u64s_read(front, k);
            lemma_u64_roundtrip(s.last(), Seq::empty(), Seq::empty());
            let b = u64s_bytes(s);
            assert(b.subrange(8 * k, 8 * k + 8) =~= u64s_bytes(front).subrange(8 * k, 8 * k + 8));
            lemma_le_window(b, 8 * k, u64s_bytes(front), 8 * k, 8);
        } else {
            lemma_u64s_read(front, 0);
            lemma_u64_roundtrip(s.last(), u64s_bytes(front), Seq::empty());
            assert(u64s_bytes(s) =~= u64s_bytes(front) + u64_bytes(s.last()) + Seq::<u8>::empty());
        }
    }
}

/// The `k`-th value of an array of little-endian `u32` values.
pub proof fn lemma_u32s_read(s: Seq<u32>, k: int)
    requires
        0 <= k < s.len(),
    ensures
        u32s_bytes(s).len() == 4 * s.len(),
        le_u32(u32s_bytes(s), 4 * k) == s[k],
    decreases s.len(),
{
    let front = s.drop_last();
    if s.len() == 1 {
        assert(front.len() == 0);
        assert(u32s_bytes(front) =~= Seq::<u8>::empty());
        lemma_u32_roundtrip(s.last(), Seq::empty(), Seq::empty());
        assert(u32s_bytes(s) =~= Seq::<u8>::empty() + u32_bytes(s.last()) + Seq::<u8>::empty());
    } else {
        if k < s.len() - 1 {
            lemma_u32s_read(front, k);
            lemma_u32_roundtrip(s.last(), Seq::empty(), Seq::empty());
            let b = u32s_bytes(s);
            let f = u32s_bytes(front);
            assert(b[4 * k] == f[4 * k] && b[4 * k + 1] == f[4 * k + 1] && b[4 * k + 2] == f[4 * k + 2] && b[4 * k
                + 3] == f[4 * k + 3]);
        } else {
            lemma_u32s_read(front, 0);
            lemma_u32_roundtrip(s.last(), u32s_bytes(front), Seq::empty());
            assert(u32s_bytes(s) =~= u32s_bytes(front) + u32_bytes(s.last()) + Seq::<u8>::empty());
        }
    }
}

pub proof fn lemma_write_append(f: Seq<u8>, b: Seq<u8>)
    ensures
        write_at(f, f.len() as int, b) == f + b,
{
    assert(write_at(f, f.len() as int, b) =~= f + b);
}

pub proof fn lemma_zero_u64s(s: Seq<u64>)
    requires
        forall|k: int| 0 <= k < s.len() ==> #[trigger] s[k] == 0,
    ensures
        u64s_bytes(s) == zeros(8 * (s.len() as int)),
    decreases s.len(),
{
    if s.len() > 0 {
        lemma_zero_u64s(s.drop_last());
        assert(u64_bytes(0) =~= zeros(8));
        assert(u64s_bytes(s) =~= zeros(8 * (s.len() as int)));
    } else {
        assert(u64s_bytes(s) =~= zeros(0));
    }
}

pub proof fn lemma_zero_u32s(s: Seq<u32>)
    requires
        forall|k: int| 0 <= k < s.len() ==> #[trigger] s[k] == 0,
    ensures
        u32s_bytes(s) == zeros(4 * (s.len() as int)),
    decreases s.len(),
{
    if s.len() > 0 {
        lemma_zero_u32s(s.drop_last());
        assert(u32_bytes(0) =~= zeros(4));
        assert(u32s_bytes(s) =~= zeros(4 * (s.len() as int)));
    } else {
        assert(u32s_bytes(s) =~= zeros(0));
    }
}

pub proof fn lemma_sub_mid(a: Seq<u8>, b: Seq<u8>, c: Seq<u8>, x: int, y: int)
    requires
        0 <= x <= y <= b.len(),
    ensures
        (a + b + c).subrange(a.len() + x, a.len() + y) == b.subrange(x, y),
{
    assert((a + b + c).subrange(a.len() + x, a.len() + y) =~= b.subrange(x, y));
}

pub proof fn lemma_sub_last(a: Seq<u8>, b: Seq<u8>, c: Seq<u8>, x: int, y: int)
    requires
        0 <= x <= y <= c.len(),
    ensures
        (a + b + c).subrange(a.len() + b.len() + x, a.len() + b.len() + y) == c.subrange(x, y),
{
    assert((a + b + c).subrange(a.len() + b.len() + x, a.len() + b.len() + y) =~= c.subrange(x, y));
}

/// A write that stays inside a file keeps its length, leaves the bytes
/// around it, and within a surrounding range is that write on the range.
pub proof fn lemma_write_inside(f: Seq<u8>, o: int, b: Seq<u8>, x: int, y: int)
    requires
        0 <= o,
        o + b.len() <= f.len(),
        0 <= x <= y <= f.len(),
    ensures
        write_at(f, o, b).len() == f.len(),
        y <= o || o + b.len() <= x ==> write_at(f, o, b).subrange(x, y) == f.subrange(x, y),
        x <= o && o + b.len() <= y ==> write_at(f, o, b).subrange(x, y) == write_at(f.subrange(x, y), o - x, b),
{
    let w = write_at(f, o, b);
    if y <= o || o + b.len() <= x {
        assert(w.subrange(x, y) =~= f.subrange(x, y));
    }
    if x <= o && o + b.len() <= y {
        assert(w.subrange(x, y) =~= write_at(f.subrange(x, y), o - x, b));
    }
}

/// A write into the middle part of a concatenation writes that part.
pub proof fn lemma_write_mid(a: Seq<u8>, e: Seq<u8>, c: Seq<u8>, x: int, b: Seq<u8>)
    requires
        0 <= x,
        x + b.len() <= e.len(),
    ensures
        write_at(a + e + c, a.len() + x, b) == a + write_at(e, x, b) + c,
{
    assert(write_at(a + e + c, a.len() + x, b) =~= a + write_at(e, x, b) + c);
}

/// Writing into the value slot of entry `j` writes the entry list there.
pub proof fn lemma_entries_slot_write(es: Seq<RawEntry>, j: int, o: int, b: Seq<u8>)
    requires
        slots_sized(es),
        0 <= j < es.len(),
        0 <= o,
        o + b.len() <= 8,
    ensures
        entries_bytes(es.update(j, RawEntry { slot: write_at(es[j].slot, o, b), ..es[j] })) == write_at(
            entries_bytes(es),
            20 * j + 12 + o,
            b,
        ),
    decreases es.len(),
{
    let e = es[j];
    let e2 = RawEntry { slot: write_at(e.slot, o, b), ..e };
    let es2 = es.update(j, e2);
    let front = es.drop_last();
    let last = es.last();
    assert(slots_sized(front));
    lemma_entries_bytes_len(front);
    if j < es.len() - 1 {
        lemma_entries_slot_write(front, j, o, b);
        assert(es2.drop_last() =~= front.update(j, e2));
        assert(es2.last() == last);
        let raw = entry_bytes(last.code, last.ty, last.count, last.slot);
        lemma_write_mid(Seq::empty(), entries_bytes(front), raw, 20 * j + 12 + o, b);
        assert(Seq::<u8>::empty() + entries_bytes(front) + raw =~= entries_bytes(es));
        assert(Seq::<u8>::empty() + write_at(entries_bytes(front), 20 * j + 12 + o, b) + raw =~= entries_bytes(es2));
    } else {
        assert(es2.drop_last() =~= front);
        let raw = entry_bytes(e.code, e.ty, e.count, e.slot);
        let raw2 = entry_bytes(e.code, e.ty, e.count, e2.slot);
        let pre = u16_bytes(e.code) + u16_bytes(e.ty) + u64_bytes(e.count);
        lemma_slot_u64(e.count);
        assert(u16_bytes(e.code).len() == 2 && u16_bytes(e.ty).len() == 2);
        lemma_write_mid(pre, e.slot, Seq::empty(), o, b);
        assert(pre + e.slot + Seq::<u8>::empty() =~= raw);
        assert(pre + write_at(e.slot, o, b) + Seq::<u8>::empty() =~= raw2);
        lemma_write_mid(entries_bytes(front), raw, Seq::empty(), 12 + o, b);
        assert(entries_bytes(front) + raw + Seq::<u8>::empty() =~= entries_bytes(es));
        assert(entries_bytes(front) + raw2 + Seq::<u8>::empty() =~= entries_bytes(es2));
    }
}


/// Changing one value of an array of `u64` values writes its bytes.
pub proof fn lemma_u64s_update(s: Seq<u64>, k: int, v: u64)
    requires
        0 <= k < s.len(),
    ensures
        u64s_bytes(s.update(k, v)) == write_at(u64s_bytes(s), 8 * k, u64_bytes(v)),
        u64s_bytes(s).len() == 8 * s.len(),
    decreases s.len(),
{
    let front = s.drop_last();
    let s2 = s.update(k, v);
    lemma_slot_u64(v);
    lemma_slot_u64(s.last());
    if s.len() == 1 {
        assert(u64s_bytes(front) =~= Seq::<u8>::empty());
        assert(s2.drop_last() =~= front);
        assert(u64s_bytes(s2) =~= write_at(u64s_bytes(s), 0, u64_bytes(v)));
    } else if k < s.len() - 1 {
        lemma_u64s_update(front, k, v);
        assert(s2.drop_last() =~= front.update(k, v));
        assert(s2.last() == s.last());
        lemma_write_mid(Seq::empty(), u64s_bytes(front), u64_bytes(s.last()), 8 * k, u64_bytes(v));
        assert(Seq::<u8>::empty() + u64s_bytes(front) + u64_bytes(s.last()) =~= u64s_bytes(s));
        assert(Seq::<u8>::empty() + write_at(u64s_bytes(front), 8 * k, u64_bytes(v)) + u64_bytes(s.last())
            =~= u64s_bytes(s2));
    } else {
        lemma_u64s_update(front, 0, front[0]);
        assert(s2.drop_last() =~= front);
        assert(u64s_bytes(s2) =~= write_at(u64s_bytes(s), 8 * k, u64_bytes(v)));
    }
}

/// Changing one value of an array of `u32` values writes its bytes.
pub proof fn lemma_u32s_update(s: Seq<u32>, k: int, v: u32)
    requires
        0 <= k < s.len(),
    ensures
        u32s_bytes(s.update(k, v)) == write_at(u32s_bytes(s), 4 * k, u32_bytes(v)),
        u32s_bytes(s).len() == 4 * s.len(),
    decreases s.len(),
{
    let front = s.drop_last();
    let s2 = s.update(k, v);
    lemma_u32_roundtrip(v, Seq::empty(), Seq::empty());
    lemma_u32_roundtrip(s.last(), Seq::empty(), Seq::empty());
    if s.len() == 1 {
        assert(u32s_bytes(front) =~= Seq::<u8>::empty());
        assert(s2.drop_last() =~= front);
        assert(u32s_bytes(s2) =~= write_at(u32s_bytes(s), 0, u32_bytes(v)));
    } else if k < s.len() - 1 {
        lemma_u32s_update(front, k, v);
        assert(s2.drop_last() =~= front.update(k, v));
        assert(s2.last() == s.last());
        lemma_write_mid(Seq::empty(), u32s_bytes(front), u32_bytes(s.last()), 4 * k, u32_bytes(v));
        assert(Seq::<u8>::empty() + u32s_bytes(front) + u32_bytes(s.last()) =~= u32s_bytes(s));
        assert(Seq::<u8>::empty() + write_at(u32s_bytes(front), 4 * k, u32_bytes(v)) + u32_bytes(s.last())
            =~= u32s_bytes(s2));
    } else {
        lemma_u32s_update(front, 0, front[0]);
        assert(s2.drop_last() =~= front);
        assert(u32s_bytes(s2) =~= write_at(u32s_bytes(s), 4 * k, u32_bytes(v)));
    }
}

/// Applying two lists of writes one after the other applies their
/// concatenation.
pub proof fn lemma_apply_ops_concat(f: Seq<u8>, a: Seq<OpModel>, b: Seq<OpModel>)
    ensures
        apply_ops(f, a + b) == apply_ops(apply_ops(f, a), b),
    decreases b.len(),
{
    if b.len() == 0 {
        assert(a + b =~= a);
    } else {
        lemma_apply_ops_concat(f, a, b.drop_last());
        assert((a + b).drop_last() =~= a + b.drop_last());
        assert((a + b).last() == b.last());
    }
}
} // verus!
