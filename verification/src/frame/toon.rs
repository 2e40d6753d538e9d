//! The TOON binary table format: a magic number, a version, the shape, then
//! each column as its name and its values, all little-endian. Values are
//! carried as their 64-bit patterns (the bits of `f64` numbers).
use vstd::prelude::*;
use crate::frame::dataframe::DataFrame;
use crate::frame::error::{Error, Result};
use crate::frame::index::range_labels;
use crate::frame::table::{
    build_frame, frame_built, value_columns, value_names, is_last, lemma_last_unique, lemma_unique_names_of_distinct,
    lemma_value_columns_all,
};
use crate::frame::dataframe::unique_names;
use crate::frame::index::distinct_labels;
use crate::frame::text::{decimal, decimal_u64};

verus! {

/// UTF-8 bytes of one character.
pub open spec fn utf8_char(c: char) -> Seq<u8> {
    let u = c as u32 as int;
    if u < 0x80 {
        seq![u as u8]
    } else if u < 0x800 {
        seq![(0xC0 + u / 64) as u8, (0x80 + u % 64) as u8]
    } else if u < 0x10000 {
        seq![(0xE0 + u / 4096) as u8, (0x80 + (u / 64) % 64) as u8, (0x80 + u % 64) as u8]
    } else {
        seq![(0xF0 + u / 262144) as u8, (0x80 + (u / 4096) % 64) as u8, (0x80 + (u / 64) % 64) as u8, (0x80 + u % 64) as u8]
    }
}

/// UTF-8 bytes of a text.
pub open spec fn utf8_encode(s: Seq<char>) -> Seq<u8>
    decreases s.len(),
{
    if s.len() == 0 {
        Seq::empty()
    } else {
        utf8_char(s[0]) + utf8_encode(s.skip(1))
    }
}

/// The text whose UTF-8 bytes these are, if any.
pub open spec fn utf8_decode(b: Seq<u8>) -> Option<Seq<char>> {
    if exists|s: Seq<char>| utf8_encode(s) == b {
        Some(choose|s: Seq<char>| utf8_encode(s) == b)
    } else {
        None
    }
}

/// The code point that UTF-8 bytes of one character stand for, read by the
/// length the bytes have.
pub open spec fn char_value(b: Seq<u8>) -> int {
    if b.len() == 1 {
        b[0] as int
    } else if b.len() == 2 {
        (b[0] - 0xC0) * 64 + (b[1] - 0x80)
    } else if b.len() == 3 {
        (b[0] - 0xE0) * 4096 + (b[1] - 0x80) * 64 + (b[2] - 0x80)
    } else {
        (b[0] - 0xF0) * 262144 + (b[1] - 0x80) * 4096 + (b[2] - 0x80) * 64 + (b[3] - 0x80)
    }
}

/// The bytes of one character: one to four of them, their number told by the
/// first, and the code point read back from them.
proof fn lemma_utf8_char(c: char)
    ensures
        1 <= utf8_char(c).len() <= 4,
        (utf8_char(c).len() == 1) == (utf8_char(c)[0] < 0x80),
        (utf8_char(c).len() == 2) == (0xC0 <= utf8_char(c)[0] < 0xE0),
        (utf8_char(c).len() == 3) == (0xE0 <= utf8_char(c)[0] < 0xF0),
        (utf8_char(c).len() == 4) == (0xF0 <= utf8_char(c)[0]),
        char_value(utf8_char(c)) == c as u32 as int,
{
    let u = c as u32 as int;
    assert(0 <= u <= 0x10FFFF);
    let b = utf8_char(c);
    if u < 0x80 {
    } else if u < 0x800 {
        assert(u == 64 * (u / 64) + u % 64) by {
            vstd::arithmetic::div_mod::lemma_fundamental_div_mod(u, 64);
        }
        assert(2 <= u / 64 < 32);
    } else if u < 0x10000 {
        let q = u / 64;
        assert(u == 64 * q + u % 64) by {
            vstd::arithmetic::div_mod::lemma_fundamental_div_mod(u, 64);
        }
        assert(q == 64 * (q / 64) + q % 64) by {
            vstd::arithmetic::div_mod::lemma_fundamental_div_mod(q, 64);
        }
        assert(q / 64 == u / 4096) by {
            vstd::arithmetic::div_mod::lemma_div_denominator(u, 64, 64);
        }
        assert(0 <= u / 4096 < 16);
    } else {
        let q = u / 64;
        let r = q / 64;
        assert(u == 64 * q + u % 64) by {
            vstd::arithmetic::div_mod::lemma_fundamental_div_mod(u, 64);
        }
        assert(q == 64 * r + q % 64) by {
            vstd::arithmetic::div_mod::lemma_fundamental_div_mod(q, 64);
        }
        assert(r == 64 * (r / 64) + r % 64) by {
            vstd::arithmetic::div_mod::lemma_fundamental_div_mod(r, 64);
        }
        assert(r == u / 4096) by {
            vstd::arithmetic::div_mod::lemma_div_denominator(u, 64, 64);
        }
        assert(r / 64 == u / 262144) by {
            vstd::arithmetic::div_mod::lemma_div_denominator(u, 4096, 64);
        }
        assert(0 <= u / 262144 <= 4);
    }
}

/// Different characters have different UTF-8 bytes.
proof fn lemma_utf8_char_injective(c1: char, c2: char)
    requires
        utf8_char(c1) == utf8_char(c2),
    ensures
        c1 == c2,
{
    lemma_utf8_char(c1);
    lemma_utf8_char(c2);
    assert(c1 as u32 == c2 as u32);
}

/// Every character takes at least one byte.
proof fn lemma_utf8_len(s: Seq<char>)
    ensures
        utf8_encode(s).len() >= s.len(),
        s.len() > 0 ==> utf8_encode(s).len() > 0,
    decreases s.len(),
{
    if s.len() > 0 {
        lemma_utf8_char(s[0]);
        lemma_utf8_len(s.skip(1));
    }
}

/// Different texts have different UTF-8 bytes.
pub proof fn lemma_utf8_injective(s: Seq<char>, t: Seq<char>)
    requires
        utf8_encode(s) == utf8_encode(t),
    ensures
        s == t,
    decreases s.len(),
{
    lemma_utf8_len(s);
    lemma_utf8_len(t);
    if s.len() == 0 {
        assert(t.len() == 0);
        assert(s =~= t);
    } else {
        assert(t.len() > 0);
        let a = utf8_char(s[0]);
        let b = utf8_char(t[0]);
        lemma_utf8_char(s[0]);
        lemma_utf8_char(t[0]);
        let e = utf8_encode(s);
        assert(e == a + utf8_encode(s.skip(1)));
        assert(e == b + utf8_encode(t.skip(1)));
        assert(e[0] == a[0]);
        assert(e[0] == b[0]);
        assert(a.len() == b.len());
        assert(a =~= e.take(a.len() as int));
        assert(b =~= e.take(b.len() as int));
        lemma_utf8_char_injective(s[0], t[0]);
        assert(utf8_encode(s.skip(1)) =~= e.skip(a.len() as int));
        assert(utf8_encode(t.skip(1)) =~= e.skip(b.len() as int));
        lemma_utf8_injective(s.skip(1), t.skip(1));
        assert(s =~= seq![s[0]] + s.skip(1));
        assert(t =~= seq![t[0]] + t.skip(1));
    }
}

/// Reading the UTF-8 bytes of a text gives the text back.
pub proof fn lemma_utf8_round_trip(s: Seq<char>)
    ensures
        utf8_decode(utf8_encode(s)) == Some(s),
{
    let c = choose|t: Seq<char>| utf8_encode(t) == utf8_encode(s);
    assert(utf8_encode(c) == utf8_encode(s));
    lemma_utf8_injective(c, s);
}

proof fn lemma_le16(v: u16)
    ensures
        le16(v).len() == 2,
        le16(v)[0] as int + 256 * (le16(v)[1] as int) == v as int,
{
    assert(v as int == 256 * (v as int / 256) + v as int % 256) by {
        vstd::arithmetic::div_mod::lemma_fundamental_div_mod(v as int, 256);
    }
}

proof fn lemma_le32(v: u32)
    ensures
        le32(v).len() == 4,
        le32(v).subrange(0, 2) == le16((v % 65536) as u16),
        le32(v).subrange(2, 4) == le16((v / 65536) as u16),
        (v % 65536) as int + 65536 * ((v / 65536) as int) == v as int,
{
    lemma_le16((v % 65536) as u16);
    lemma_le16((v / 65536) as u16);
    assert(le32(v).subrange(0, 2) =~= le16((v % 65536) as u16));
    assert(le32(v).subrange(2, 4) =~= le16((v / 65536) as u16));
    assert(v as int == 65536 * (v as int / 65536) + v as int % 65536) by {
        vstd::arithmetic::div_mod::lemma_fundamental_div_mod(v as int, 65536);
    }
}

proof fn lemma_le64(v: u64)
    ensures
        le64(v).len() == 8,
        le64(v).subrange(0, 4) == le32((v % 4294967296) as u32),
        le64(v).subrange(4, 8) == le32((v / 4294967296) as u32),
        (v % 4294967296) as int + 4294967296 * ((v / 4294967296) as int) == v as int,
{
    lemma_le32((v % 4294967296) as u32);
    lemma_le32((v / 4294967296) as u32);
    assert(le64(v).subrange(0, 4) =~= le32((v % 4294967296) as u32));
    assert(le64(v).subrange(4, 8) =~= le32((v / 4294967296) as u32));
    assert(v as int == 4294967296 * (v as int / 4294967296) + v as int % 4294967296) by {
        vstd::arithmetic::div_mod::lemma_fundamental_div_mod(v as int, 4294967296);
    }
}

/// A 16-bit number written at `p` reads back.
proof fn lemma_read16(b: Seq<u8>, p: int, v: u16)
    requires
        0 <= p,
        p + 2 <= b.len(),
        b.subrange(p, p + 2) == le16(v),
    ensures
        u16_at(b, p) == v as int,
{
    lemma_le16(v);
    assert(b[p] == b.subrange(p, p + 2)[0]);
    assert(b[p + 1] == b.subrange(p, p + 2)[1]);
}

/// A 32-bit number written at `p` reads back.
proof fn lemma_read32(b: Seq<u8>, p: int, v: u32)
    requires
        0 <= p,
        p + 4 <= b.len(),
        b.subrange(p, p + 4) == le32(v),
    ensures
        u32_at(b, p) == v as int,
{
    lemma_le32(v);
    assert(b.subrange(p, p + 2) =~= b.subrange(p, p + 4).subrange(0, 2));
    assert(b.subrange(p + 2, p + 4) =~= b.subrange(p, p + 4).subrange(2, 4));
    lemma_read16(b, p, (v % 65536) as u16);
    lemma_read16(b, p + 2, (v / 65536) as u16);
}

/// A 64-bit number written at `p` reads back.
proof fn lemma_read64(b: Seq<u8>, p: int, v: u64)
    requires
        0 <= p,
        p + 8 <= b.len(),
        b.subrange(p, p + 8) == le64(v),
    ensures
        u64_at(b, p) == v as int,
{
    lemma_le64(v);
    assert(b.subrange(p, p + 4) =~= b.subrange(p, p + 8).subrange(0, 4));
    assert(b.subrange(p + 4, p + 8) =~= b.subrange(p, p + 8).subrange(4, 8));
    lemma_read32(b, p, (v % 4294967296) as u32);
    lemma_read32(b, p + 4, (v / 4294967296) as u32);
}

/// The bytes of values: eight per value, each value's bytes in turn.
proof fn lemma_values_bytes(v: Seq<u64>)
    ensures
        values_bytes(v).len() == 8 * v.len(),
        forall|i: int| 0 <= i < v.len() ==> #[trigger] values_bytes(v).subrange(8 * i, 8 * i + 8) == le64(v[i]),
    decreases v.len(),
{
    if v.len() > 0 {
        let w = v.drop_last();
        lemma_values_bytes(w);
        lemma_le64(v.last());
        let b = values_bytes(v);
        assert(b == values_bytes(w) + le64(v.last()));
        assert forall|i: int| 0 <= i < v.len() implies #[trigger] values_bytes(v).subrange(8 * i, 8 * i + 8) == le64(v[i]) by {
            if i < w.len() {
                assert(values_bytes(v).subrange(8 * i, 8 * i + 8) =~= values_bytes(w).subrange(8 * i, 8 * i + 8));
            } else {
                assert(values_bytes(v).subrange(8 * i, 8 * i + 8) =~= le64(v.last()));
            }
        }
    }
}

/// Values written at `p` read back.
proof fn lemma_read_values(b: Seq<u8>, p: int, v: Seq<u64>)
    requires
        0 <= p,
        p + 8 * v.len() <= b.len(),
        b.subrange(p, p + 8 * v.len()) == values_bytes(v),
    ensures
        values_at(b, p, v.len()) == v,
{
    lemma_values_bytes(v);
    assert forall|i: int| 0 <= i < v.len() implies #[trigger] values_at(b, p, v.len())[i] == v[i] by {
        assert(b.subrange(p + 8 * i, p + 8 * i + 8) =~= values_bytes(v).subrange(8 * i, 8 * i + 8));
        lemma_read64(b, p + 8 * i, v[i]);
    }
    assert(values_at(b, p, v.len()) =~= v);
}

/// The conditions under which TOON bytes keep a table: at least one column,
/// fewer than `2^32` columns, column names under `2^16` UTF-8 bytes.
pub open spec fn toon_keeps(df: DataFrame<u64>) -> bool {
    &&& 0 < df.names().len() < 4294967296
    &&& forall|k: int| 0 <= k < df.names().len() ==> #[trigger] utf8_encode(df.names()[k]).len() < 65536
}

/// What every table satisfies: one distinct name per column, each column as
/// long as the index, and an index within the index limit.
pub open spec fn frame_shape(df: DataFrame<u64>) -> bool {
    &&& df.names().len() == df.series().len()
    &&& distinct_labels(df.names())
    &&& df.index_view().len() <= isize::MAX
    &&& forall|k: int| 0 <= k < df.series().len() ==> #[trigger] df.series()[k].values_view().len() == df.index_view().len()
}

/// The values of every column.
pub open spec fn frame_values(df: DataFrame<u64>) -> Seq<Seq<u64>> {
    Seq::new(df.series().len(), |k: int| df.series()[k].values_view())
}

proof fn lemma_columns_prefix(df: DataFrame<u64>, j: int, k: int)
    requires
        0 <= j <= k,
    ensures
        columns_bytes(df, j).len() <= columns_bytes(df, k).len(),
        columns_bytes(df, k).subrange(0, columns_bytes(df, j).len() as int) == columns_bytes(df, j),
    decreases k - j,
{
    if j < k {
        lemma_columns_prefix(df, j, k - 1);
        let a = columns_bytes(df, k - 1);
        assert(columns_bytes(df, k).subrange(0, a.len() as int) =~= a);
        assert(columns_bytes(df, k).subrange(0, columns_bytes(df, j).len() as int) =~= a.subrange(
            0,
            columns_bytes(df, j).len() as int,
        ));
    } else {
        assert(columns_bytes(df, k).subrange(0, columns_bytes(df, k).len() as int) =~= columns_bytes(df, k));
    }
}

/// Reading the first `k` columns back from the bytes of a table.
#[verifier::spinoff_prover]
#[verifier::rlimit(60)]
proof fn lemma_read_back_columns(df: DataFrame<u64>, b: Seq<u8>, k: int)
    requires
        toon_keeps(df),
        frame_shape(df),
        0 <= k <= df.names().len(),
        b.len() == 18 + columns_bytes(df, df.names().len() as int).len(),
        b.subrange(18, b.len() as int) == columns_bytes(df, df.names().len() as int),
    ensures
        read_columns(b, 18, df.index_view().len(), k as nat) == core::result::Result::<
            (Seq<Seq<char>>, Seq<Seq<u64>>, int),
            ToonFault,
        >::Ok((df.names().take(k), frame_values(df).take(k), 18 + columns_bytes(df, k).len() as int)),
    decreases k,
{
    let n = df.index_view().len();
    let nc = df.names().len() as int;
    if k == 0 {
        assert(df.names().take(0) =~= Seq::<Seq<char>>::empty());
        assert(frame_values(df).take(0) =~= Seq::<Seq<u64>>::empty());
    } else {
        lemma_read_back_columns(df, b, k - 1);
        let q: int = 18 + columns_bytes(df, k - 1).len() as int;
        let name = df.names()[k - 1];
        let vals = df.series()[k - 1].values_view();
        let e = utf8_encode(name);
        let col = column_bytes(name, vals);
        let cl = col.len() as int;
        let el = e.len() as int;
        let all = columns_bytes(df, nc);
        lemma_columns_prefix(df, k, nc);
        lemma_values_bytes(vals);
        assert(columns_bytes(df, k) == columns_bytes(df, k - 1) + col);
        // The column's bytes sit at q.
        assert(b.subrange(q, q + cl) =~= col) by {
            assert forall|i: int| 0 <= i < cl implies b.subrange(q, q + cl)[i] == col[i] by {
                assert(b[q + i] == b.subrange(18, b.len() as int)[q + i - 18]);
                assert(all.subrange(0, columns_bytes(df, k).len() as int)[q + i - 18] == all[q + i - 18]);
                assert(columns_bytes(df, k)[q + i - 18] == col[i]);
            }
        }
        assert(el < 65536);
        let len16 = (e.len() % 65536) as u16;
        assert(len16 as int == el);
        assert(col == le16(len16) + e + values_bytes(vals));
        lemma_le16(len16);
        assert(b.subrange(q, q + 2) =~= le16(len16)) by {
            assert(b.subrange(q, q + 2) =~= b.subrange(q, q + cl).subrange(0, 2));
            assert(col.subrange(0, 2) =~= le16(len16));
        }
        lemma_read16(b, q, len16);
        assert(b.subrange(q + 2, q + 2 + el) =~= e) by {
            assert(b.subrange(q + 2, q + 2 + el) =~= b.subrange(q, q + cl).subrange(2, 2 + el));
            assert(col.subrange(2, 2 + el) =~= e);
        }
        lemma_utf8_round_trip(name);
        let vs = q + 2 + el;
        assert(vals.len() == n);
        assert(b.subrange(vs, vs + 8 * n) =~= values_bytes(vals)) by {
            assert(b.subrange(vs, vs + 8 * n) =~= b.subrange(q, q + cl).subrange(2 + el, cl));
            assert(col.subrange(2 + el, cl) =~= values_bytes(vals));
        }
        lemma_read_values(b, vs, vals);
        assert(df.names().take(k) =~= df.names().take(k - 1).push(name));
        assert(frame_values(df).take(k) =~= frame_values(df).take(k - 1).push(vals));
    }
}



/// Reading back what writing a table gave returns the table: the same column
/// names in the same order with the same values, and rows labelled
/// `"0" ..` as many as the table has. (The row labels themselves are not
/// stored.)
#[verifier::spinoff_prover]
#[verifier::rlimit(80)]
pub proof fn lemma_toon_round_trip(df: DataFrame<u64>, r: Result<DataFrame<u64>>)
    requires
        frame_shape(df),
        toon_keeps(df),
        toon_read(toon_bytes(df), r),
    ensures
        r matches Ok(d) && d.names() == df.names() && d.index_view() == range_labels(df.index_view().len())
            && d.series().len() == df.series().len() && forall|k: int|
            0 <= k < df.series().len() ==> (#[trigger] d.series()[k]).values_view() == df.series()[k].values_view(),
{
    let b = toon_bytes(df);
    let nc = df.names().len();
    let n = df.index_view().len();
    let nc32 = (nc % 4294967296) as u32;
    let all = columns_bytes(df, nc as int);
    lemma_le32(nc32);
    lemma_le64(n as u64);
    lemma_le16(1);
    let head = magic() + le16(1) + le32(nc32) + le64(n as u64);
    assert(b == head + all);
    assert(head.len() == 18);
    assert(b.subrange(0, 4) =~= magic());
    assert(b.subrange(4, 6) =~= le16(1));
    lemma_read16(b, 4, 1);
    assert(b.subrange(6, 10) =~= le32(nc32));
    lemma_read32(b, 6, nc32);
    assert(nc32 as int == nc);
    assert(b.subrange(10, 18) =~= le64(n as u64));
    lemma_read64(b, 10, n as u64);
    assert(b.subrange(18, b.len() as int) =~= all);
    lemma_read_back_columns(df, b, nc as int);
    assert(df.names().take(nc as int) =~= df.names());
    assert(frame_values(df).take(nc as int) =~= frame_values(df));
    let vals = frame_values(df);
    let vc = value_columns(None, nc as int);
    lemma_value_columns_all(nc as int);
    assert(value_names(df.names(), vc) =~= df.names());
    lemma_unique_names_of_distinct(df.names());
    assert(vals[0].len() == n);
    assert(r matches Ok(d) && d.names() == df.names());
    let d = r->Ok_0;
    assert forall|k: int| 0 <= k < df.series().len() implies (#[trigger] d.series()[k]).values_view()
        == df.series()[k].values_view() by {
        assert(is_last(df.names(), df.names()[k], k));
        lemma_last_unique(df.names(), df.names()[k], k);
        assert(d.names()[k] == df.names()[k]);
    }
}

/// `String::into_bytes`: the UTF-8 bytes of the string.
#[verifier::external_body]
fn utf8_bytes(s: String) -> (r: Vec<u8>)
    ensures
        r@ == utf8_encode(s@),
{
    s.into_bytes()
}

/// `String::from_utf8`: the text the bytes encode in UTF-8 (the only text
/// whose encoding they are), or nothing when they encode no text.
#[verifier::external_body]
fn utf8_text(b: Vec<u8>) -> (r: Option<String>)
    ensures
        match r {
            Some(t) => forall|s: Seq<char>| #[trigger] utf8_encode(s) == b@ <==> s == t@,
            None => forall|s: Seq<char>| #[trigger] utf8_encode(s) != b@,
        },
{
    String::from_utf8(b).ok()
}

/// Little-endian bytes of a 16-bit number.
pub open spec fn le16(v: u16) -> Seq<u8> {
    seq![(v % 256) as u8, (v / 256) as u8]
}

/// Little-endian bytes of a 32-bit number.
pub open spec fn le32(v: u32) -> Seq<u8> {
    le16((v % 65536) as u16) + le16((v / 65536) as u16)
}

/// Little-endian bytes of a 64-bit number.
pub open spec fn le64(v: u64) -> Seq<u8> {
    le32((v % 4294967296) as u32) + le32((v / 4294967296) as u32)
}

/// The little-endian 16-bit number at `p`.
pub open spec fn u16_at(b: Seq<u8>, p: int) -> int {
    b[p] + 256 * b[p + 1]
}

/// The little-endian 32-bit number at `p`.
pub open spec fn u32_at(b: Seq<u8>, p: int) -> int {
    u16_at(b, p) + 65536 * u16_at(b, p + 2)
}

/// The little-endian 64-bit number at `p`.
pub open spec fn u64_at(b: Seq<u8>, p: int) -> int {
    u32_at(b, p) + 4294967296 * u32_at(b, p + 4)
}

/// The magic number `TOON`.
pub open spec fn magic() -> Seq<u8> {
    seq![84u8, 79u8, 79u8, 78u8]
}

/// Bytes of the values of a column.
pub open spec fn values_bytes(v: Seq<u64>) -> Seq<u8>
    decreases v.len(),
{
    if v.len() == 0 {
        Seq::empty()
    } else {
        values_bytes(v.drop_last()) + le64(v.last())
    }
}

/// Bytes of one column: the name's byte length (modulo `2^16`), the name,
/// then the values.
pub open spec fn column_bytes(name: Seq<char>, v: Seq<u64>) -> Seq<u8> {
    le16((utf8_encode(name).len() % 65536) as u16) + utf8_encode(name) + values_bytes(v)
}

/// Bytes of the first `k` columns.
pub open spec fn columns_bytes(df: DataFrame<u64>, k: int) -> Seq<u8>
    decreases k,
{
    if k <= 0 {
        Seq::empty()
    } else {
        columns_bytes(df, k - 1) + column_bytes(df.names()[k - 1], df.series()[k - 1].values_view())
    }
}

/// TOON bytes of a table: magic, version 1, the number of columns (modulo
/// `2^32`) and of rows, then the columns in order.
pub open spec fn toon_bytes(df: DataFrame<u64>) -> Seq<u8> {
    magic() + le16(1) + le32((df.names().len() % 4294967296) as u32) + le64(df.index_view().len() as u64) + columns_bytes(
        df,
        df.names().len() as int,
    )
}

/// Why TOON bytes cannot be read.
#[derive(Debug, Clone, Copy)]
pub enum ToonFault {
    /// The bytes end too early.
    Truncated,
    /// The bytes do not start with `TOON`.
    BadMagic,
    /// A version other than 1.
    BadVersion(u16),
    /// A column name that is not UTF-8.
    BadName,
}

/// The values at `p`: `n` little-endian 64-bit numbers.
pub open spec fn values_at(b: Seq<u8>, p: int, n: nat) -> Seq<u64> {
    Seq::new(n, |i: int| u64_at(b, p + 8 * i) as u64)
}

/// Reads `k` columns of `n` values from position `p`: their names, their
/// values and the position after them, or why that fails.
pub open spec fn read_columns(b: Seq<u8>, p: int, n: nat, k: nat) -> core::result::Result<(Seq<Seq<char>>, Seq<Seq<u64>>, int), ToonFault>
    decreases k,
{
    if k == 0 {
        Ok((Seq::empty(), Seq::empty(), p))
    } else {
        match read_columns(b, p, n, (k - 1) as nat) {
            Err(f) => Err(f),
            Ok((names, vals, q)) => if q + 2 > b.len() {
                Err(ToonFault::Truncated)
            } else {
                let len = u16_at(b, q);
                if q + 2 + len > b.len() {
                    Err(ToonFault::Truncated)
                } else {
                    match utf8_decode(b.subrange(q + 2, q + 2 + len)) {
                        None => Err(ToonFault::BadName),
                        Some(name) => if q + 2 + len + 8 * n > b.len() {
                            Err(ToonFault::Truncated)
                        } else {
                            Ok((names.push(name), vals.push(values_at(b, q + 2 + len, n)), q + 2 + len + 8 * n))
                        },
                    }
                }
            },
        }
    }
}

/// The error a fault gives.
pub open spec fn fault_error(f: ToonFault, e: Error) -> bool {
    match f {
        ToonFault::Truncated => e matches Error::Io(m) && m@ == "failed to fill whole buffer"@,
        ToonFault::BadMagic => e matches Error::InvalidValue(m) && m@ == "invalid TOON magic"@,
        ToonFault::BadVersion(v) => e matches Error::InvalidValue(m) && m@ == "unsupported TOON version "@ + decimal(
            v as nat,
        ),
        ToonFault::BadName => e matches Error::InvalidValue(m) && m@ == "invalid UTF-8 column name"@,
    }
}

/// The number of rows the bytes announce fits the index limit.
pub open spec fn toon_rows_fit(b: Seq<u8>) -> bool {
    b.len() >= 18 ==> u64_at(b, 10) <= isize::MAX
}

/// What reading TOON bytes gives: a table with one column per stored column
/// (a later column replaces an earlier one of the same name) and rows
/// labelled `"0" ..`; with no columns, an empty table.
pub open spec fn toon_read(b: Seq<u8>, r: Result<DataFrame<u64>>) -> bool {
    if b.len() < 4 {
        r matches Err(e) && fault_error(ToonFault::Truncated, e)
    } else if b.subrange(0, 4) != magic() {
        r matches Err(e) && fault_error(ToonFault::BadMagic, e)
    } else if b.len() < 6 {
        r matches Err(e) && fault_error(ToonFault::Truncated, e)
    } else if u16_at(b, 4) != 1 {
        r matches Err(e) && fault_error(ToonFault::BadVersion(u16_at(b, 4) as u16), e)
    } else if b.len() < 18 {
        r matches Err(e) && fault_error(ToonFault::Truncated, e)
    } else {
        let ncols = u32_at(b, 6) as nat;
        let nrows = u64_at(b, 10) as nat;
        match read_columns(b, 18, nrows, ncols) {
            Err(f) => r matches Err(e) && fault_error(f, e),
            Ok((names, vals, _end)) => if ncols == 0 {
                r matches Ok(df) && df.names() == Seq::<Seq<char>>::empty() && df.index_view() == Seq::<
                    Seq<char>,
                >::empty()
            } else {
                frame_built(vals, Seq::empty(), names, None, r)
            },
        }
    }
}

/// Once reading columns fails, it fails the same way for more columns.
proof fn lemma_read_columns_stops(b: Seq<u8>, p: int, n: nat, j: nat, k: nat)
    requires
        j <= k,
        read_columns(b, p, n, j) is Err,
    ensures
        read_columns(b, p, n, k) == read_columns(b, p, n, j),
    decreases k - j,
{
    if k > j {
        lemma_read_columns_stops(b, p, n, j, (k - 1) as nat);
    }
}

/// Appends the little-endian bytes of a 16-bit number.
fn push_le16(out: &mut Vec<u8>, v: u16)
    ensures
        final(out)@ == old(out)@ + le16(v),
{
    out.push((v % 256) as u8);
    out.push((v / 256) as u8);
    proof {
        assert(final(out)@ =~= old(out)@ + le16(v));
    }
}

/// Appends the little-endian bytes of a 32-bit number.
fn push_le32(out: &mut Vec<u8>, v: u32)
    ensures
        final(out)@ == old(out)@ + le32(v),
{
    push_le16(out, (v % 65536) as u16);
    push_le16(out, (v / 65536) as u16);
    proof {
        assert(final(out)@ =~= old(out)@ + le32(v));
    }
}

/// Appends the little-endian bytes of a 64-bit number.
fn push_le64(out: &mut Vec<u8>, v: u64)
    ensures
        final(out)@ == old(out)@ + le64(v),
{
    push_le32(out, (v % 4294967296) as u32);
    push_le32(out, (v / 4294967296) as u32);
    proof {
        assert(final(out)@ =~= old(out)@ + le64(v));
    }
}

/// The little-endian 16-bit number at `p`.
fn read_u16(b: &[u8], p: usize) -> (r: u16)
    requires
        p + 2 <= b@.len(),
    ensures
        r as int == u16_at(b@, p as int),
{
    (b[p] as u16) + (b[p + 1] as u16) * 256
}

/// The little-endian 32-bit number at `p`.
fn read_u32(b: &[u8], p: usize) -> (r: u32)
    requires
        p + 4 <= b@.len(),
    ensures
        r as int == u32_at(b@, p as int),
{
    let _n = b.len();
    let lo = read_u16(b, p);
    let hi = read_u16(b, p + 2);
    (lo as u32) + (hi as u32) * 65536
}

/// The little-endian 64-bit number at `p`.
fn read_u64(b: &[u8], p: usize) -> (r: u64)
    requires
        p + 8 <= b@.len(),
    ensures
        r as int == u64_at(b@, p as int),
{
    let _n = b.len();
    let lo = read_u32(b, p);
    let hi = read_u32(b, p + 4);
    (lo as u64) + (hi as u64) * 4294967296
}

/// The error for bytes that end too early.
fn truncated() -> (e: Error)
    ensures
        fault_error(ToonFault::Truncated, e),
{
    Error::Io(String::from_str("failed to fill whole buffer"))
}

/// Writes a table as TOON bytes.
#[verifier::loop_isolation(false)]
#[verifier::spinoff_prover]
#[verifier::rlimit(40)]
pub fn write_toon_bytes(df: &DataFrame<u64>) -> (r: Vec<u8>)
    ensures
        r@ == toon_bytes(*df),
{
    proof {
        use_type_invariant(df);
    }
    let mut out: Vec<u8> = Vec::new();
    out.push(84u8);
    out.push(79u8);
    out.push(79u8);
    out.push(78u8);
    proof {
        assert(out@ =~= magic());
    }
    push_le16(&mut out, 1);
    let names = df.columns();
    let ncols = names.len();
    push_le32(&mut out, ((ncols as u64) % 4294967296) as u32);
    let nrows = df.nrows();
    push_le64(&mut out, nrows as u64);
    let ghost head = out@;
    proof {
        assert(head == magic() + le16(1) + le32((df.names().len() % 4294967296) as u32) + le64(df.index_view().len() as u64));
    }
    let mut k: usize = 0;
    while k < ncols
        invariant
            k <= ncols,
            ncols == df.names().len(),
            names@.len() == ncols,
            forall|j: int| 0 <= j < ncols ==> #[trigger] names@[j]@ == df.names()[j],
            out@ == head + columns_bytes(*df, k as int),
        decreases ncols - k,
    {
        let ghost before = out@;
        let name_bytes = utf8_bytes(names[k].clone());
        let blen = name_bytes.len();
        push_le16(&mut out, ((blen as u64) % 65536) as u16);
        let mut q: usize = 0;
        while q < blen
            invariant
                q <= blen,
                blen == name_bytes@.len(),
                out@ == before + le16((blen % 65536) as u16) + name_bytes@.take(q as int),
            decreases blen - q,
        {
            out.push(name_bytes[q]);
            q = q + 1;
            proof {
                assert(out@ =~= before + le16((blen % 65536) as u16) + name_bytes@.take(q as int));
            }
        }
        proof {
            assert(name_bytes@.take(q as int) =~= name_bytes@);
        }
        let col = df.column_at(k);
        let values = col.to_vec();
        let ghost mid = out@;
        let mut i: usize = 0;
        while i < values.len()
            invariant
                i <= values@.len(),
                out@ == mid + values_bytes(values@.take(i as int)),
            decreases values@.len() - i,
        {
            push_le64(&mut out, values[i]);
            i = i + 1;
            proof {
                assert(values@.take(i as int).drop_last() =~= values@.take(i - 1));
                assert(out@ =~= mid + values_bytes(values@.take(i as int)));
            }
        }
        proof {
            assert(values@.take(i as int) =~= values@);
            assert(out@ =~= head + columns_bytes(*df, k + 1));
        }
        k = k + 1;
    }
    out
}

/// Reads a table from TOON bytes.
#[verifier::loop_isolation(false)]
pub fn read_toon_bytes(b: &[u8]) -> (r: Result<DataFrame<u64>>)
    requires
        toon_rows_fit(b@),
    ensures
        toon_read(b@, r),
{
    let len = b.len();
    if len < 4 {
        return Err(truncated());
    }
    if !(b[0] == 84u8 && b[1] == 79u8 && b[2] == 79u8 && b[3] == 78u8) {
        proof {
            assert(b@.subrange(0, 4) != magic()) by {
                if b@.subrange(0, 4) == magic() {
                    assert(b@.subrange(0, 4)[0] == b@[0]);
                    assert(b@.subrange(0, 4)[1] == b@[1]);
                    assert(b@.subrange(0, 4)[2] == b@[2]);
                    assert(b@.subrange(0, 4)[3] == b@[3]);
                }
            }
        }
        return Err(Error::InvalidValue(String::from_str("invalid TOON magic")));
    }
    proof {
        assert(b@.subrange(0, 4) =~= magic());
    }
    if len < 6 {
        return Err(truncated());
    }
    let version = read_u16(b, 4);
    if version != 1 {
        let mut m = String::from_str("unsupported TOON version ");
        m.append(decimal_u64(version as u64).as_str());
        return Err(Error::InvalidValue(m));
    }
    if len < 18 {
        return Err(truncated());
    }
    let ncols = read_u32(b, 6);
    let nrows = read_u64(b, 10) as usize;
    let ghost n = nrows as nat;
    let mut names: Vec<String> = Vec::new();
    let mut cols: Vec<Vec<u64>> = Vec::new();
    let mut pos: usize = 18;
    let mut k: u32 = 0;
    proof {
        assert(names@.map_values(|s: String| s@) =~= Seq::<Seq<char>>::empty());
        assert(cols@.map_values(|c: Vec<u64>| c@) =~= Seq::<Seq<u64>>::empty());
    }
    while k < ncols
        invariant
            len == b@.len(),
            n == u64_at(b@, 10),
            nrows == n,
            nrows <= isize::MAX,
            ncols as int == u32_at(b@, 6),
            k <= ncols,
            pos <= len,
            names@.len() == k,
            cols@.len() == k,
            forall|j: int| 0 <= j < k ==> (#[trigger] cols@[j])@.len() == n,
            read_columns(b@, 18, n, k as nat) == core::result::Result::<(Seq<Seq<char>>, Seq<Seq<u64>>, int), ToonFault>::Ok((
                names@.map_values(|s: String| s@),
                cols@.map_values(|c: Vec<u64>| c@),
                pos as int,
            )),
        decreases ncols - k,
    {
        if len - pos < 2 {
            proof {
                lemma_read_columns_stops(b@, 18, n, (k + 1) as nat, ncols as nat);
            }
            return Err(truncated());
        }
        let name_len = read_u16(b, pos) as usize;
        let start = pos + 2;
        if name_len > len - start {
            proof {
                lemma_read_columns_stops(b@, 18, n, (k + 1) as nat, ncols as nat);
            }
            return Err(truncated());
        }
        let mut raw: Vec<u8> = Vec::new();
        let mut q: usize = 0;
        while q < name_len
            invariant
                q <= name_len,
                start + name_len <= len,
                raw@ == b@.subrange(start as int, start + q),
            decreases name_len - q,
        {
            raw.push(b[start + q]);
            q = q + 1;
            proof {
                assert(raw@ =~= b@.subrange(start as int, start + q));
            }
        }
        let ghost raw_v = raw@;
        let name = match utf8_text(raw) {
            Some(t) => t,
            None => {
                proof {
                    assert(utf8_decode(b@.subrange(start as int, start + name_len)) is None);
                    lemma_read_columns_stops(b@, 18, n, (k + 1) as nat, ncols as nat);
                }
                return Err(Error::InvalidValue(String::from_str("invalid UTF-8 column name")));
            },
        };
        proof {
            assert(utf8_encode(name@) == raw_v);
            let c = choose|s: Seq<char>| utf8_encode(s) == raw_v;
            assert(utf8_encode(c) == raw_v);
            assert(c == name@);
            assert(utf8_decode(raw_v) == Some(name@));
        }
        let vstart = start + name_len;
        if nrows > (len - vstart) / 8 {
            proof {
                let m = (len - vstart) as int;
                assert(vstart + 8 * nrows > len) by (nonlinear_arith)
                    requires
                        nrows > m / 8,
                        m == len - vstart,
                        m >= 0,
                ;
                lemma_read_columns_stops(b@, 18, n, (k + 1) as nat, ncols as nat);
            }
            return Err(truncated());
        }
        proof {
            let m = (len - vstart) as int;
            assert(vstart + 8 * nrows <= len) by (nonlinear_arith)
                requires
                    nrows <= m / 8,
                    m == len - vstart,
                    m >= 0,
            ;
        }
        let mut values: Vec<u64> = Vec::new();
        let mut i: usize = 0;
        while i < nrows
            invariant
                i <= nrows,
                vstart + 8 * nrows <= len,
                values@ == values_at(b@, vstart as int, i as nat),
            decreases nrows - i,
        {
            let v = read_u64(b, vstart + 8 * i);
            values.push(v);
            i = i + 1;
            proof {
                assert(values@ =~= values_at(b@, vstart as int, i as nat));
            }
        }
        let ghost old_names = names@;
        let ghost old_cols = cols@;
        names.push(name);
        cols.push(values);
        pos = vstart + 8 * nrows;
        k = k + 1;
        proof {
            assert(names@.map_values(|s: String| s@) =~= old_names.map_values(|s: String| s@).push(name@));
            assert(cols@.map_values(|c: Vec<u64>| c@) =~= old_cols.map_values(|c: Vec<u64>| c@).push(values@));
        }
    }
    if ncols == 0 {
        return Ok(DataFrame::empty());
    }
    proof {
        assert forall|j: int| 0 <= j < cols@.len() implies (#[trigger] cols@[j])@.len() <= isize::MAX by {
        }
    }
    build_frame(cols, Vec::new(), names, None)
}

} // verus!
