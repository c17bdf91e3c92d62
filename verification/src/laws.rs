//! Laws of the interpreter that relate several operations, stated over the
//! same spec functions the operations' own contracts use and proved once
//! and for all.
use vstd::prelude::*;

use crate::cells::le32_at;
use crate::cells::store32;
use crate::cells::store8;
use crate::defs::align_up;
use crate::dict::copy_rec;
use crate::dict::find_rec;
use crate::dict::name_cmp;
use crate::defs::VMError;
use crate::defs::VMResult;
use crate::defs::spec_digit_val;
use crate::number::digits_rec;
use crate::number::neg32;
use crate::number::parse_spec;
use crate::vm::base_of;
use crate::io::input_byte_spec;
use crate::io::is_ws_spec;
use crate::io::scan_rec;
use crate::step::exec_step;
use crate::vm::here_of;
use crate::vm::latest_of;
use crate::defs::wadd;
use crate::dict::toggle_flag;
use crate::step::as_signed;
use crate::step::binop_post;
use crate::vm::state_of;
use crate::vm::VMView;

verus! {

/// Writing a 32-bit cell anywhere in the live image and reading it back
/// yields the written value, and the image keeps its length: the
/// little-endian cell round trip.
pub proof fn lemma_cell_round_trip(m: Seq<u8>, a: u32, v: u32)
    requires
        a % 4 == 0,
        a + 4 <= m.len(),
    ensures
        le32_at(store32(m, a as int, v), a as int) == v,
        store32(m, a as int, v).len() == m.len(),
{
    crate::cells::lemma_store32_le32(m, a as int, v);
}

/// `[` then `]` and `]` then `[` return `STATE` to where it stood: the two
/// mode words are mutual inverses on the canonical mode values.
pub proof fn lemma_bracket_round_trip(m: Seq<u8>)
    requires
        48 <= m.len(),
    ensures
        state_of(m) == 1 ==> state_of(store32(store32(m, 8, 0), 8, 1)) == state_of(m),
        state_of(m) == 0 ==> state_of(store32(store32(m, 8, 1), 8, 0)) == state_of(m),
{
    crate::cells::lemma_store32_le32(store32(m, 8, 0), 8, 1);
    crate::cells::lemma_store32_le32(store32(m, 8, 1), 8, 0);
}

/// Toggling the immediate or hidden bit of a header twice returns the
/// image to exactly what it was.
pub proof fn lemma_toggle_twice(m: Seq<u8>, h: u32, bit: u8)
    requires
        h + 5 <= m.len(),
    ensures
        toggle_flag(toggle_flag(m, h, bit), h, bit) == m,
{
    let f = m[h + 4];
    assert((f ^ bit) ^ bit == f) by (bit_vector);
    assert(toggle_flag(toggle_flag(m, h, bit), h, bit) =~= m);
}

/// Reading a cell as signed or unsigned picks congruent values: the
/// two's-complement reading differs from the unsigned one by a multiple
/// of 2^32.
proof fn lemma_signed_mod(x: u32)
    ensures
        as_signed(x) % 0x1_0000_0000 == (x as int) % 0x1_0000_0000,
{
    if x >= 0x8000_0000 {
        vstd::arithmetic::div_mod::lemma_mod_sub_multiples_vanish(x as int, 0x1_0000_0000);
    }
}

/// The arithmetic primitives agree with 32-bit wrapping two's-complement
/// arithmetic: reading the operands and the result as signed values, the
/// result differs from the mathematical sum, difference or product by a
/// multiple of 2^32.
pub proof fn lemma_arithmetic_wraps(pre: VMView, post: VMView, op: u8, r: crate::defs::VMSuccess)
    requires
        binop_post(pre, post, op, r),
        pre.data.len() >= 2,
        op == 12 || op == 13 || op == 14,
    ensures
        r is Ok,
        post.data.len() == pre.data.len() - 1,
        ({
            let a = as_signed(pre.data[pre.data.len() - 2]);
            let b = as_signed(pre.data.last());
            let c = as_signed(post.data.last());
            &&& op == 12 ==> (c - (a + b)) % 0x1_0000_0000 == 0
            &&& op == 13 ==> (c - (a - b)) % 0x1_0000_0000 == 0
            &&& op == 14 ==> (c - a * b) % 0x1_0000_0000 == 0
        }),
{
    broadcast use vstd::arithmetic::div_mod::lemma_mod_twice;

    let w = 0x1_0000_0000int;
    let x = pre.data[pre.data.len() - 2];
    let y = pre.data.last();
    let res = post.data.last();
    let a = as_signed(x);
    let b = as_signed(y);
    let c = as_signed(res);
    lemma_signed_mod(x);
    lemma_signed_mod(y);
    lemma_signed_mod(res);
    if op == 12 {
        assert(res == wadd(x, y as int));
        assert(res as int == (x + y) % w);
        vstd::arithmetic::div_mod::lemma_add_mod_noop(a, b, w);
        vstd::arithmetic::div_mod::lemma_add_mod_noop(x as int, y as int, w);
        assert(c % w == (a + b) % w);
        vstd::arithmetic::div_mod::lemma_mod_equivalence(c, a + b, w);
    } else if op == 13 {
        assert(res == wadd(x, -(y as int)));
        assert(res as int == (x - y) % w);
        vstd::arithmetic::div_mod::lemma_sub_mod_noop(a, b, w);
        vstd::arithmetic::div_mod::lemma_sub_mod_noop(x as int, y as int, w);
        assert(c % w == (a - b) % w);
        vstd::arithmetic::div_mod::lemma_mod_equivalence(c, a - b, w);
    } else {
        assert(res as int == ((x as int) * (y as int)) % w);
        vstd::arithmetic::div_mod::lemma_mul_mod_noop_left(a, b, w);
        vstd::arithmetic::div_mod::lemma_mul_mod_noop_left(x as int, b, w);
        vstd::arithmetic::div_mod::lemma_mul_mod_noop_right(x as int, b, w);
        vstd::arithmetic::div_mod::lemma_mul_mod_noop_right(x as int, y as int, w);
        assert(c % w == (a * b) % w);
        vstd::arithmetic::div_mod::lemma_mod_equivalence(c, a * b, w);
    }
}

/// Scanning a token writes only the scratch buffer: the bump pointer cell
/// reads the same before and after.
proof fn lemma_scan_keeps_here(v: VMView, i: u32)
    requires
        i <= 31,
        48 <= v.mem.len(),
    ensures
        here_of(scan_rec(v, i).0.mem) == here_of(v.mem),
        scan_rec(v, i).0.mem.len() == v.mem.len(),
    decreases v.input.len() - v.pos,
{
    let step = input_byte_spec(v);
    match step.1 {
        Err(e) => {},
        Ok(b) => {
            if is_ws_spec(b) {
                if i > 0 {
                } else {
                    lemma_scan_keeps_here(step.0, i);
                }
            } else {
                if i < 31 {
                    let v2 = VMView { mem: store8(step.0.mem, 16 + i, b), ..step.0 };
                    crate::cells::lemma_le32_congruence(v2.mem, v.mem, 12);
                    lemma_scan_keeps_here(v2, (i + 1) as u32);
                } else {
                    lemma_scan_keeps_here(step.0, i);
                }
            }
        },
    }
}

/// A name copy whose destination lies past the reserved region leaves the
/// fixed-address cells alone and moves its cursor forward.
proof fn lemma_copy_keeps_cells(m: Seq<u8>, src: u32, dst: u32, n: u32, i: u32)
    requires
        16 <= dst,
        i <= n,
        n <= 64,
        dst + (n - i) < 0x1_0000_0000,
    ensures
        forall|j: int| 0 <= j < 16 && j < m.len() ==> copy_rec(m, src, dst, n, i).0[j] == m[j],
        copy_rec(m, src, dst, n, i).0.len() >= m.len(),
        dst <= copy_rec(m, src, dst, n, i).1 <= dst + (n - i),
    decreases n - i,
{
    if i < n {
        let a = wadd(src, i as int);
        if a < m.len() && !(dst + 1 > m.len() + 64) {
            vstd::arithmetic::div_mod::lemma_small_mod((dst + 1) as nat, 0x1_0000_0000);
            let m2 = store8(m, dst as int, m[a as int]);
            lemma_copy_keeps_cells(m2, src, wadd(dst, 1), n, (i + 1) as u32);
            assert forall|j: int| 0 <= j < 16 && j < m.len() implies copy_rec(
                m,
                src,
                dst,
                n,
                i,
            ).0[j] == m[j] by {
                assert(copy_rec(m2, src, wadd(dst, 1), n, (i + 1) as u32).0[j] == m2[j]);
                assert(m2[j] == m[j]);
            }
        }
    }
}

/// Bump monotonicity: no primitive moves `HERE` down, except a direct
/// store aimed at the `HERE` cell itself (`!`, `c!`, or a flag toggle on a
/// header address that overlaps it), the chaining primitives `execute` and
/// `interpret` (whose effect is that of the word they run), and states
/// where the bump pointer sits outside the open image or a `create` is
/// handed an oversized name length.
pub proof fn lemma_bump_monotonic(
    pre: VMView,
    post: VMView,
    xt: u32,
    r: crate::defs::VMSuccess,
    fuel: nat,
)
    requires
        exec_step(pre, post, xt, r, fuel),
        48 <= pre.mem.len() <= 0xFFFF_0000,
        16 <= here_of(pre.mem) <= 0xFFFF_0000,
        xt < pre.mem.len(),
        ({
            let op = pre.mem[xt as int];
            &&& op != 9 && op != 10 && op != 39 && op != 44
            &&& (op == 33 ==> pre.data.len() < 2 || pre.data.last() <= 64)
            &&& (op == 36 ==> !(8 <= latest_of(pre.mem) < 12))
            &&& (op == 37 ==> pre.data.len() == 0 || !(8 <= pre.data.last() < 12))
        }),
    ensures
        here_of(post.mem) >= here_of(pre.mem),
{
    let op = pre.mem[xt as int];
    let m = pre.mem;
    let h = here_of(m);
    crate::defs::lemma_align_up(h);
    if op == 11 {
        crate::cells::lemma_store32_le32(m, 12, align_up(h));
    } else if op == 26 {
        lemma_scan_keeps_here(pre, 0);
    } else if op == 31 || op == 32 {
        crate::cells::lemma_le32_congruence(store32(m, 8, 0), m, 12);
        crate::cells::lemma_le32_congruence(store32(m, 8, 1), m, 12);
    } else if op == 33 {
        reveal(crate::dict::create_spec);
        if pre.data.len() >= 2 {
            let word_len = pre.data.last();
            let word_addr = pre.data[pre.data.len() - 2];
            let h2 = align_up(h);
            let m1 = store32(m, 12, h2);
            crate::cells::lemma_store32_le32(m, 12, h2);
            let lat = latest_of(m1);
            if h2 + 4 <= m1.len() + 64 {
                let m2 = store32(m1, h2 as int, lat);
                crate::cells::lemma_le32_congruence(m2, m1, 12);
                let h3 = wadd(h2, 4);
                vstd::arithmetic::div_mod::lemma_small_mod((h2 + 4) as nat, 0x1_0000_0000);
                if h3 + 1 <= m2.len() + 64 {
                    let m3 = store8(m2, h3 as int, (word_len % 256) as u8);
                    crate::cells::lemma_le32_congruence(m3, m2, 12);
                    let h4 = wadd(h3, 1);
                    vstd::arithmetic::div_mod::lemma_small_mod((h3 + 1) as nat, 0x1_0000_0000);
                    lemma_copy_keeps_cells(m3, word_addr, h4, word_len, 0);
                    let cp = copy_rec(m3, word_addr, h4, word_len, 0);
                    crate::cells::lemma_le32_congruence(cp.0, m3, 12);
                    if cp.2 is Ok {
                        let inner = store32(cp.0, 0, h2);
                        crate::cells::lemma_le32_congruence(inner, cp.0, 12);
                        crate::cells::lemma_store32_le32(inner, 12, cp.1);
                    }
                }
            }
        }
    } else if op == 34 {
        if pre.data.len() >= 1 && h % 4 == 0 && h + 4 <= m.len() + 64 {
            vstd::arithmetic::div_mod::lemma_small_mod((h + 4) as nat, 0x1_0000_0000);
            crate::cells::lemma_store32_le32(store32(m, h as int, pre.data.last()), 12, wadd(h, 4));
        }
    } else if op == 35 {
        if pre.data.len() >= 1 && h + 1 <= m.len() + 64 {
            vstd::arithmetic::div_mod::lemma_small_mod((h + 1) as nat, 0x1_0000_0000);
            crate::cells::lemma_store32_le32(
                store8(m, h as int, (pre.data.last() % 256) as u8),
                12,
                wadd(h, 1),
            );
        }
    } else if op == 36 {
        if latest_of(m) + 4 < m.len() {
            crate::cells::lemma_le32_congruence(toggle_flag(m, latest_of(m), 64), m, 12);
        }
    } else if op == 37 {
        if pre.data.len() > 0 && pre.data.last() + 4 < m.len() {
            crate::cells::lemma_le32_congruence(toggle_flag(m, pre.data.last(), 32), m, 12);
        }
    }
}

/// A well-formed header slot: a nonzero aligned address past the reserved
/// region whose link, flags byte and longest possible name all lie in the
/// live image.
pub open spec fn header_ok(m: Seq<u8>, h: u32) -> bool {
    &&& h != 0
    &&& h % 4 == 0
    &&& 48 <= h
    &&& h + 68 <= m.len()
}

/// A terminating dictionary chain: well-formed headers whose links walk
/// strictly downward and end at 0.
pub open spec fn chain_ok(m: Seq<u8>, c: Seq<u32>) -> bool {
    &&& c.len() >= 1
    &&& c.last() == 0
    &&& (forall|i: int| 0 <= i < c.len() - 1 ==> header_ok(m, #[trigger] c[i]))
    &&& (forall|i: int| 0 <= i < c.len() - 1 ==> le32_at(m, #[trigger] c[i] as int) == c[i + 1])
    &&& (forall|i: int| 0 <= i < c.len() - 1 ==> c[i + 1] < #[trigger] c[i])
}

/// Whether the header at `h` matches the `len` probe bytes at `addr`:
/// flags-and-length byte equal, hidden bit included, and name bytes equal.
pub open spec fn entry_matches(m: Seq<u8>, h: u32, addr: u32, len: u8) -> bool {
    &&& (m[h + 4] & 63) == len
    &&& name_cmp(m, h, addr, len, 0) == VMResult::<bool>::Ok(true)
}

/// A name comparison whose two byte ranges lie in the live image cannot
/// fail.
proof fn lemma_name_cmp_total(m: Seq<u8>, h: u32, addr: u32, len: u8, i: int)
    requires
        0 <= i <= len,
        h + 5 + len <= m.len(),
        addr + len <= m.len(),
    ensures
        name_cmp(m, h, addr, len, i) is Ok,
    decreases len - i,
{
    if i < len {
        if m[h + 5 + i] == m[addr + i] {
            lemma_name_cmp_total(m, h, addr, len, i + 1);
        }
    }
}

/// Byte-equal ranges compare equal.
proof fn lemma_name_cmp_eq(m: Seq<u8>, h: u32, addr: u32, len: u8, i: int)
    requires
        0 <= i <= len,
        h + 5 + len <= m.len(),
        addr + len <= m.len(),
        forall|j: int| i <= j < len ==> #[trigger] m[h + 5 + j] == m[addr + j],
    ensures
        name_cmp(m, h, addr, len, i) == VMResult::<bool>::Ok(true),
    decreases len - i,
{
    if i < len {
        lemma_name_cmp_eq(m, h, addr, len, i + 1);
    }
}

/// Looking a name up along a terminating chain returns the first matching
/// header: every later or equally named header is shadowed by the most
/// recent one.
pub proof fn lemma_find_first_match(m: Seq<u8>, c: Seq<u32>, addr: u32, len: u8, j: int)
    requires
        chain_ok(m, c),
        len <= 63,
        addr + len <= m.len(),
        0 <= j < c.len() - 1,
        entry_matches(m, c[j], addr, len),
        forall|i: int| 0 <= i < j ==> !entry_matches(m, #[trigger] c[i], addr, len),
    ensures
        find_rec(m, c[0], addr, len) == VMResult::<u32>::Ok(c[j]),
    decreases j,
{
    let h = c[0];
    lemma_name_cmp_total(m, h, addr, len, 0);
    if j == 0 {
    } else {
        let c2 = c.subrange(1, c.len() as int);
        assert(chain_ok(m, c2)) by {
            assert(c2.last() == c.last());
            assert(forall|i: int| 0 <= i < c2.len() - 1 ==> #[trigger] c2[i] == c[i + 1]);
        }
        assert(c2[j - 1] == c[j]);
        assert(forall|i: int| 0 <= i < j - 1 ==> !entry_matches(m, #[trigger] c2[i], addr, len));
        lemma_find_first_match(m, c2, addr, len, j - 1);
        assert(!entry_matches(m, h, addr, len));
        assert(find_rec(m, c[0], addr, len) == find_rec(m, c[1], addr, len));
    }
}

/// Looking a name up along a terminating chain where nothing matches
/// returns 0.
pub proof fn lemma_find_no_match(m: Seq<u8>, c: Seq<u32>, addr: u32, len: u8)
    requires
        chain_ok(m, c),
        len <= 63,
        addr + len <= m.len(),
        forall|i: int| 0 <= i < c.len() - 1 ==> !entry_matches(m, #[trigger] c[i], addr, len),
    ensures
        find_rec(m, c[0], addr, len) == VMResult::<u32>::Ok(0u32),
    decreases c.len(),
{
    if c.len() > 1 {
        lemma_name_cmp_total(m, c[0], addr, len, 0);
        let c2 = c.subrange(1, c.len() as int);
        assert(chain_ok(m, c2)) by {
            assert(c2.last() == c.last());
            assert(forall|i: int| 0 <= i < c2.len() - 1 ==> #[trigger] c2[i] == c[i + 1]);
        }
        assert(forall|i: int| 0 <= i < c2.len() - 1 ==> !entry_matches(m, #[trigger] c2[i], addr, len));
        lemma_find_no_match(m, c2, addr, len);
    }
}

/// Lookup never returns a hidden header: for the name lengths a scanned
/// token can have, a set hidden bit makes the stored length byte differ
/// from every probe length.
pub proof fn lemma_find_not_hidden(m: Seq<u8>, h0: u32, addr: u32, len: u8)
    requires
        len <= 31,
    ensures
        (match find_rec(m, h0, addr, len) {
            Ok(h) => h != 0 ==> (m[h + 4] & 63) == len && (m[h + 4] & 32) == 0,
            Err(e) => true,
        }),
    decreases h0,
{
    if h0 != 0 && h0 + 4 < m.len() {
        let f = m[h0 + 4];
        assert((f & 63) == len && len <= 31 ==> (f & 32) == 0) by (bit_vector);
        if !((f & 63) == len && name_cmp(m, h0, addr, len, 0) == VMResult::<bool>::Err(
            VMError::IllegalAddress,
        )) && !((f & 63) == len && name_cmp(m, h0, addr, len, 0) == VMResult::<bool>::Ok(true))
            && h0 % 4 == 0 && le32_at(m, h0 as int) < h0 {
            lemma_find_not_hidden(m, le32_at(m, h0 as int), addr, len);
        }
    }
}

/// The bytes `create` lays down when the bump pointer sits at the live
/// end and the name comes from the scratch buffer: the plain length byte,
/// the name bytes copied from the buffer, the link to the previous newest
/// header, and every byte of the open image below the new header as it
/// was.
#[verifier::rlimit(100)]
pub proof fn lemma_create_bytes(m: Seq<u8>, data: Seq<u32>, n: u32)
    requires
        48 <= m.len(),
        m.len() + 128 <= 0xFFFF_0000,
        m.len() <= here_of(m) <= m.len() + 3,
        1 <= n <= 31,
    ensures
        ({
            let h = align_up(here_of(m));
            let c = crate::dict::create_spec(m, data.push(16u32).push(n));
            &&& c.0[h + 4] == n as u8
            &&& (forall|j: int| h + 5 <= j < h + 5 + n ==> #[trigger] c.0[j] == m[16 + (j - h
                - 5)])
            &&& le32_at(c.0, h as int) == latest_of(m)
            &&& (forall|j: int| 16 <= j < m.len() && j < h ==> #[trigger] c.0[j] == m[j])
            &&& (forall|j: int| 4 <= j < 12 ==> #[trigger] c.0[j] == m[j])
        }),
{
    reveal(crate::dict::create_spec);
    crate::defs::lemma_align_up(here_of(m));
    let h = align_up(here_of(m));
    let d = data.push(16u32).push(n);
    assert(d.drop_last().drop_last() =~= data);
    let m1 = store32(m, 12, h);
    let lat = latest_of(m1);
    assert(lat == latest_of(m)) by {
        crate::cells::lemma_le32_congruence(m1, m, 0);
    }
    let m2 = store32(m1, h as int, lat);
    let h1 = wadd(h, 4);
    assert(h1 == h + 4);
    let m3 = store8(m2, h1 as int, (n % 256) as u8);
    let h2 = wadd(h1, 1);
    assert(h2 == h + 5);
    crate::boot::lemma_copy_ok(m3, 16, h2, n, 0);
    let res = copy_rec(m3, 16, h2, n, 0);
    let inner = store32(res.0, 0, h);
    let c0 = store32(inner, 12, res.1);
    assert(c0[h + 4] == res.0[h + 4] && res.0[h + 4] == m3[h + 4]);
    assert forall|j: int| h + 5 <= j < h + 5 + n implies #[trigger] c0[j] == m[16 + (j - h
        - 5)] by {
        assert(c0[j] == res.0[j]);
        assert(res.0[j] == m3[16 + 0 + (j - h2)]);
        assert(m3[16 + (j - h - 5)] == m[16 + (j - h - 5)]);
    }
    assert(res.0[h as int] == m3[h as int] && res.0[h + 1] == m3[h + 1] && res.0[h + 2] == m3[h
        + 2] && res.0[h + 3] == m3[h + 3]);
    assert(le32_at(c0, h as int) == lat) by {
        crate::cells::lemma_store32_le32(m1, h as int, lat);
        crate::cells::lemma_le32_congruence(c0, inner, h as int);
        crate::cells::lemma_le32_congruence(inner, res.0, h as int);
        crate::cells::lemma_le32_congruence(res.0, m3, h as int);
        crate::cells::lemma_le32_congruence(m3, m2, h as int);
    }
    assert forall|j: int| 16 <= j < m.len() && j < h implies #[trigger] c0[j] == m[j] by {
        assert(c0[j] == res.0[j]);
        assert(res.0[j] == m3[j]);
        assert(m3[j] == m[j]);
    }
    assert forall|j: int| 4 <= j < 12 implies #[trigger] c0[j] == m[j] by {
        assert(c0[j] == res.0[j]);
        assert(res.0[j] == m3[j]);
        assert(m3[j] == m[j]);
    }
}

/// Right after `create` lays a fresh name down, looking that very name up
/// finds the new header: the most recently created matching header wins.
pub proof fn lemma_created_word_found(m: Seq<u8>, data: Seq<u32>, n: u32)
    requires
        48 <= m.len(),
        m.len() + 128 <= 0xFFFF_0000,
        m.len() <= here_of(m) <= m.len() + 3,
        1 <= n <= 31,
    ensures
        ({
            let h = align_up(here_of(m));
            let c = crate::dict::create_spec(m, data.push(16u32).push(n));
            crate::dict::find_spec(c.0, 16u32, n as u8) == VMResult::<u32>::Ok(h)
        }),
{
    crate::boot::lemma_boot_create(m, data, n);
    lemma_create_bytes(m, data, n);
    crate::defs::lemma_align_up(here_of(m));
    let h = align_up(here_of(m));
    let c = crate::dict::create_spec(m, data.push(16u32).push(n));
    let nn = n as u8;
    assert((nn & 63) == nn) by (bit_vector)
        requires
            nn <= 31,
    ;
    assert forall|j: int| 0 <= j < nn implies #[trigger] c.0[h + 5 + j] == c.0[16 + j] by {}
    lemma_name_cmp_eq(c.0, h, 16, nn, 0);
    assert(find_rec(c.0, h, 16u32, nn) == VMResult::<u32>::Ok(h));
}

/// Name comparison reads only bytes past the reserved cells: images that
/// agree there compare names alike.
proof fn lemma_name_cmp_congruence(m1: Seq<u8>, m2: Seq<u8>, h: u32, addr: u32, len: u8, i: int)
    requires
        0 <= i <= len,
        16 <= h,
        16 <= addr,
        h + 5 + len <= m1.len(),
        addr + len <= m1.len(),
        m1.len() <= m2.len(),
        forall|j: int| 16 <= j < m1.len() ==> m1[j] == m2[j],
    ensures
        name_cmp(m2, h, addr, len, i) == name_cmp(m1, h, addr, len, i),
    decreases len - i,
{
    if i < len {
        lemma_name_cmp_congruence(m1, m2, h, addr, len, i + 1);
    }
}

/// Lookup reads only the chain's headers and the probe bytes: images that
/// agree on everything past the reserved cells answer alike along the
/// same chain.
pub proof fn lemma_find_congruence(m1: Seq<u8>, m2: Seq<u8>, c: Seq<u32>, addr: u32, len: u8)
    requires
        chain_ok(m1, c),
        len <= 63,
        16 <= addr,
        addr + len <= m1.len(),
        m1.len() <= m2.len(),
        forall|j: int| 16 <= j < m1.len() ==> m1[j] == m2[j],
    ensures
        find_rec(m2, c[0], addr, len) == find_rec(m1, c[0], addr, len),
    decreases c.len(),
{
    let h = c[0];
    if c.len() > 1 {
        lemma_name_cmp_congruence(m1, m2, h, addr, len, 0);
        lemma_name_cmp_total(m1, h, addr, len, 0);
        assert(le32_at(m2, h as int) == le32_at(m1, h as int)) by {
            crate::cells::lemma_le32_congruence(m2, m1, h as int);
        }
        let c2 = c.subrange(1, c.len() as int);
        assert(chain_ok(m1, c2)) by {
            assert(c2.last() == c.last());
            assert(forall|i: int| 0 <= i < c2.len() - 1 ==> #[trigger] c2[i] == c[i + 1]);
        }
        lemma_find_congruence(m1, m2, c2, addr, len);
    }
}

/// `create` leaves every older lookup answer alone: the new header only
/// shadows its own name, so a probe the new header does not match is
/// answered exactly as before the creation.
pub proof fn lemma_find_after_create(
    m: Seq<u8>,
    data: Seq<u32>,
    n: u32,
    c: Seq<u32>,
    addr: u32,
    len: u8,
)
    requires
        48 <= m.len(),
        m.len() + 128 <= 0xFFFF_0000,
        m.len() <= here_of(m) <= m.len() + 3,
        1 <= n <= 31,
        chain_ok(m, c),
        c[0] == latest_of(m),
        len <= 63,
        16 <= addr,
        addr + len <= m.len(),
        !entry_matches(
            crate::dict::create_spec(m, data.push(16u32).push(n)).0,
            align_up(here_of(m)),
            addr,
            len,
        ),
    ensures
        crate::dict::find_spec(
            crate::dict::create_spec(m, data.push(16u32).push(n)).0,
            addr,
            len,
        ) == crate::dict::find_spec(m, addr, len),
{
    crate::boot::lemma_boot_create(m, data, n);
    lemma_create_bytes(m, data, n);
    crate::defs::lemma_align_up(here_of(m));
    let h = align_up(here_of(m));
    let c0 = crate::dict::create_spec(m, data.push(16u32).push(n)).0;
    assert(forall|j: int| 16 <= j < m.len() ==> m[j] == c0[j]);
    if (c0[h + 4] & 63) == len {
        // same stored length: the whole name range of the new header is
        // readable, so the comparison ends without an error
        assert((n as u8 & 63) == n as u8) by (bit_vector)
            requires
                n <= 31,
        ;
        lemma_name_cmp_total(c0, h, addr, len, 0);
    }
    assert(le32_at(c0, h as int) == latest_of(m));
    assert(latest_of(m) < h) by {
        if c.len() > 1 {
            assert(header_ok(m, c[0]));
        }
    }
    assert(find_rec(c0, h, addr, len) == find_rec(c0, c[0], addr, len));
    lemma_find_congruence(m, c0, c, addr, len);
}

/// The byte that writes digit value `d`: `0`..`9`, then `a` on.
pub open spec fn digit_byte(d: int) -> u8 {
    if d < 10 {
        (48 + d) as u8
    } else {
        (87 + d) as u8
    }
}

/// The digits of `n` under base `b`, most significant first.
pub open spec fn digits_of(n: int, b: int) -> Seq<u8>
    decreases n,
    when 0 <= n && 2 <= b
    via digits_of_decreases
{
    if n < b {
        seq![digit_byte(n)]
    } else {
        digits_of(n / b, b).push(digit_byte(n % b))
    }
}

#[via_fn]
proof fn digits_of_decreases(n: int, b: int) {
    if n >= b {
        vstd::arithmetic::div_mod::lemma_div_pos_is_pos(n, b);
        vstd::arithmetic::div_mod::lemma_div_decreases(n, b);
    }
}

/// The value a digit byte sequence denotes under base `b`.
pub open spec fn value_of(s: Seq<u8>, b: int) -> int
    decreases s.len(),
{
    if s.len() == 0 {
        0
    } else {
        value_of(s.drop_last(), b) * b + spec_digit_val(s.last() as char)
    }
}

/// A digit byte reads back as its value, and is never a minus sign.
proof fn lemma_digit_byte(d: int)
    requires
        0 <= d < 36,
    ensures
        spec_digit_val(digit_byte(d) as char) == d,
        digit_byte(d) != 45,
{
    if d >= 10 {
        vstd::arithmetic::div_mod::lemma_small_mod(d as nat, 0x1_0000_0000);
    }
}

/// Writing `n` under base `b` yields at least one digit, each below the
/// base and none a minus sign, whose value is `n` again; and every prefix
/// denotes at most `n`.
proof fn lemma_digits_value(n: int, b: int)
    requires
        2 <= b <= 36,
        0 <= n,
    ensures
        digits_of(n, b).len() >= 1,
        value_of(digits_of(n, b), b) == n,
        forall|i: int|
            0 <= i < digits_of(n, b).len() ==> spec_digit_val(
                #[trigger] digits_of(n, b)[i] as char,
            ) < b && digits_of(n, b)[i] != 45,
        forall|j: int|
            0 <= j <= digits_of(n, b).len() ==> 0 <= value_of(
                #[trigger] digits_of(n, b).take(j),
                b,
            ) <= n,
    decreases n,
{
    if n < b {
        lemma_digit_byte(n);
        let s = digits_of(n, b);
        assert(s =~= seq![digit_byte(n)]);
        assert(s.drop_last() =~= Seq::<u8>::empty());
        assert(value_of(Seq::<u8>::empty(), b) == 0);
        assert(value_of(s, b) == 0 * b + spec_digit_val(digit_byte(n) as char));
        assert(s.take(1) =~= s);
        assert(s.take(0) =~= Seq::<u8>::empty());
    } else {
        vstd::arithmetic::div_mod::lemma_div_pos_is_pos(n, b);
        vstd::arithmetic::div_mod::lemma_div_is_strictly_smaller(n, b);
        lemma_digits_value(n / b, b);
        vstd::arithmetic::div_mod::lemma_fundamental_div_mod(n, b);
        lemma_digit_byte(n % b);
        let s = digits_of(n, b);
        let s0 = digits_of(n / b, b);
        assert(s.drop_last() =~= s0);
        assert(value_of(s, b) == (n / b) * b + n % b);
        assert forall|j: int| 0 <= j <= s.len() implies 0 <= value_of(#[trigger] s.take(j), b)
            <= n by {
            if j < s.len() {
                assert(s.take(j) =~= s0.take(j));
                assert(value_of(s0.take(j), b) <= n / b);
                assert(n / b <= n);
            } else {
                assert(s.take(j) =~= s);
            }
        }
    }
}

/// Scanning a run of in-base digits accumulates exactly their value: the
/// machine's Horner loop agrees with the mathematical reading as long as
/// every prefix value fits in a cell.
proof fn lemma_digits_rec_value(m: Seq<u8>, addr: u32, len: u32, b: u32, dstart: u32, k: u32)
    requires
        2 <= b <= 36,
        addr + len <= m.len(),
        addr + len <= 0xFFFF_FFFF,
        dstart <= k <= len,
        forall|j: int|
            dstart <= j < len ==> spec_digit_val(#[trigger] m[addr + j] as char) < b,
        forall|j: int|
            dstart <= j <= len ==> 0 <= value_of(
                #[trigger] m.subrange(addr + dstart, addr + j),
                b as int,
            ) < 0x1_0000_0000,
    ensures
        digits_rec(
            m,
            addr,
            len,
            b,
            k,
            value_of(m.subrange(addr + dstart, addr + k), b as int) as u32,
        ) == VMResult::<(u32, u32)>::Ok(
            (value_of(m.subrange(addr + dstart, addr + len), b as int) as u32, len),
        ),
    decreases len - k,
{
    let acc = value_of(m.subrange(addr + dstart, addr + k), b as int) as u32;
    if k < len {
        vstd::arithmetic::div_mod::lemma_small_mod((addr + k) as nat, 0x1_0000_0000);
        let a = wadd(addr, k as int);
        assert(a == addr + k);
        let v = spec_digit_val(m[a as int] as char);
        let j1: int = k + 1;
        let pk1 = m.subrange(addr + dstart, addr + j1);
        assert(0 <= value_of(m.subrange(addr + dstart, addr + j1), b as int) < 0x1_0000_0000);
        assert(pk1.drop_last() =~= m.subrange(addr + dstart, addr + k));
        assert(pk1.last() == m[addr + k]);
        assert(value_of(pk1, b as int) == acc * b + v);
        vstd::arithmetic::div_mod::lemma_small_mod(
            value_of(pk1, b as int) as nat,
            0x1_0000_0000,
        );
        lemma_digits_rec_value(m, addr, len, b, dstart, (k + 1) as u32);
        assert(m.subrange(addr + dstart, addr + (k + 1) as u32) =~= pk1);
    }
}

/// Number round trip: writing any 32-bit value's digits under a base from
/// 2 to 36 and parsing them back under that base recovers the value, with
/// every character consumed.
pub proof fn lemma_number_round_trip(m: Seq<u8>, addr: u32, n: int, b: u32)
    requires
        2 <= b <= 36,
        0 <= n < 0x1_0000_0000,
        base_of(m) == b,
        addr as int + digits_of(n, b as int).len() <= m.len(),
        addr as int + digits_of(n, b as int).len() <= 0xFFFF_FFFF,
        m.subrange(addr as int, addr as int + digits_of(n, b as int).len()) == digits_of(
            n,
            b as int,
        ),
    ensures
        parse_spec(m, addr, digits_of(n, b as int).len() as u32) == VMResult::<(u32, u32)>::Ok(
            (n as u32, 0u32),
        ),
{
    lemma_digits_value(n, b as int);
    let s = digits_of(n, b as int);
    let len = s.len() as u32;
    assert forall|j: int| 0 <= j < len implies spec_digit_val(#[trigger] m[addr + j] as char)
        < b && m[addr + j] != 45 by {
        assert(m[addr + j] == s[j]);
    }
    assert forall|j: int|
        0 <= j <= len implies 0 <= value_of(#[trigger] m.subrange(addr as int, addr + j), b as int)
        < 0x1_0000_0000 by {
        assert(m.subrange(addr as int, addr + j) =~= s.take(j));
    }
    assert(m.subrange(addr as int, addr as int) =~= s.take(0));
    lemma_digits_rec_value(m, addr, len, b, 0, 0);
    assert(m.subrange(addr as int, addr + len) =~= s);
}

/// Negative number round trip: a minus sign followed by the digits of the
/// magnitude parses back to the two's-complement encoding, with every
/// character consumed.
pub proof fn lemma_negative_round_trip(m: Seq<u8>, addr: u32, n: int, b: u32)
    requires
        2 <= b <= 36,
        1 <= n <= 0x8000_0000,
        base_of(m) == b,
        addr as int + 1 + digits_of(n, b as int).len() <= m.len(),
        addr as int + 1 + digits_of(n, b as int).len() <= 0xFFFF_FFFF,
        m[addr as int] == 45,
        m.subrange(addr as int + 1, addr as int + 1 + digits_of(n, b as int).len()) == digits_of(
            n,
            b as int,
        ),
    ensures
        parse_spec(m, addr, (1 + digits_of(n, b as int).len()) as u32) == VMResult::<
            (u32, u32),
        >::Ok((neg32(n as u32), 0u32)),
{
    lemma_digits_value(n, b as int);
    let s = digits_of(n, b as int);
    let len = (1 + s.len()) as u32;
    assert forall|j: int| 1 <= j < len implies spec_digit_val(#[trigger] m[addr + j] as char)
        < b by {
        assert(m[addr + j] == s[j - 1]);
    }
    assert forall|j: int|
        1 <= j <= len implies 0 <= value_of(#[trigger] m.subrange(addr + 1, addr + j), b as int)
        < 0x1_0000_0000 by {
        assert(m.subrange(addr + 1, addr + j) =~= s.take(j - 1));
    }
    assert(m.subrange(addr + 1, addr + 1) =~= s.take(0));
    lemma_digits_rec_value(m, addr, len, b, 1, 1);
    assert(m.subrange(addr + 1, addr as int + len) =~= s);
    assert(s.len() >= 1);
}

} // verus!
