//! Bootstrap: populate the dictionary with the primitive words, define the
//! colon-coded `:`, `;` and `quit`, and point the machine at the `quit`
//! loop. These run once on a fresh image, where the bump pointer sits at
//! the live end of the image; their contracts carry exactly that shape so
//! that none of the writes can fail.
use vstd::prelude::*;

use crate::cells::le32_at;
use crate::cells::store32;
use crate::cells::store8;
use crate::defs::align_up;
use crate::defs::align_addr;
use crate::defs::lemma_align_up;
use crate::defs::lemma_wadd;
use crate::defs::wadd;
use crate::defs::OP_LIT;
use crate::defs::OP_DUP;
use crate::defs::OP_DROP;
use crate::defs::OP_SWAP;
use crate::defs::OP_DEPTH;
use crate::defs::OP_TO_R;
use crate::defs::OP_FROM_R;
use crate::defs::OP_FETCH;
use crate::defs::OP_C_FETCH;
use crate::defs::OP_STORE;
use crate::defs::OP_ALIGN;
use crate::defs::OP_C_STORE;
use crate::defs::OP_ADD;
use crate::defs::OP_SUBTRACT;
use crate::defs::OP_MULTIPLY;
use crate::defs::OP_DIV_MOD;
use crate::defs::OP_EQUALS;
use crate::defs::OP_LESS_THAN;
use crate::defs::OP_GREATER_THAN;
use crate::defs::OP_AND;
use crate::defs::OP_OR;
use crate::defs::OP_XOR;
use crate::defs::OP_INVERT;
use crate::defs::OP_KEY;
use crate::defs::OP_WORD;
use crate::defs::OP_EMIT;
use crate::defs::OP_FIND;
use crate::defs::OP_NUMBER;
use crate::defs::OP_TO_CFA;
use crate::defs::OP_L_BRACKET;
use crate::defs::OP_R_BRACKET;
use crate::defs::OP_CREATE;
use crate::defs::OP_COMMA;
use crate::defs::OP_C_COMMA;
use crate::defs::OP_IMMEDIATE;
use crate::defs::OP_HIDDEN;
use crate::defs::OP_EXECUTE;
use crate::defs::OP_BRANCH;
use crate::defs::OP_BRANCH_IF_ZERO;
use crate::defs::OP_EXIT;
use crate::defs::OP_RESET;
use crate::defs::OP_PROMPT;
use crate::defs::OP_INTERPRET;
use crate::defs::OP_LIT_STRING;
use crate::defs::OP_TICK;
use crate::defs::ADDR_BASE;
use crate::defs::ADDR_HERE;
use crate::defs::ADDR_LATEST;
use crate::defs::ADDR_STATE;
use crate::defs::VMSuccess;
use crate::dict::copy_rec;
use crate::dict::toggle_flag;
use crate::dict::create_spec;
use crate::io::ascii_filter;
use crate::vm::base_of;
use crate::vm::here_of;
use crate::vm::state_of;
use crate::vm::latest_of;
use crate::vm::VMView;
use crate::vm::VM;

verus! {

broadcast use lemma_wadd;

/// The header at `h` lies on the chain that starts at `from`: it is
/// `from` itself, or the links walk strictly downward to it.
#[verifier::opaque]
pub open spec fn reachable(m: Seq<u8>, from: u32, h: u32) -> bool
    decreases from,
{
    if from == 0 {
        false
    } else if from == h {
        true
    } else {
        &&& 48 <= from
        &&& from % 4 == 0
        &&& from + 4 <= m.len()
        &&& le32_at(m, from as int) < from
        &&& reachable(m, le32_at(m, from as int), h)
    }
}

/// The bytes of a complete word at header `h`: an aligned header past the
/// reserved region, a plain length byte with the hidden bit clear, the
/// name bytes, and the given opcode byte at the code field.
#[verifier::opaque]
pub open spec fn word_defined(m: Seq<u8>, h: u32, name: Seq<u8>, op: u8) -> bool {
    &&& 48 <= h
    &&& h % 4 == 0
    &&& 1 <= name.len() <= 31
    &&& h + 5 + name.len() < m.len()
    &&& (m[h + 4] & 63) == name.len()
    &&& (m[h + 4] & 32) == 0
    &&& (forall|j: int| 0 <= j < name.len() ==> m[h + 5 + j] == name[j])
    &&& m[h + 5 + name.len()] == op
}

/// The dictionary defines a non-hidden word of that name whose code field
/// starts with that opcode, on a header wholly below `bound`: the form in
/// which the fact survives later growth of the dictionary.
pub open spec fn dict_word_below(m: Seq<u8>, name: Seq<u8>, op: u8, bound: int) -> bool {
    exists|h: u32|
        reachable(m, latest_of(m), h) && #[trigger] word_defined(m, h, name, op) && h + 5
            + name.len() < bound
}

/// The dictionary defines a non-hidden word of that name, reachable from
/// `LATEST`, whose code field starts with that opcode.
pub open spec fn dict_has(m: Seq<u8>, name: Seq<u8>, op: u8) -> bool {
    exists|h: u32| reachable(m, latest_of(m), h) && #[trigger] word_defined(m, h, name, op)
}

/// Like `dict_has`, with the immediate bit set on the header.
pub open spec fn dict_has_immediate(m: Seq<u8>, name: Seq<u8>, op: u8) -> bool {
    exists|h: u32|
        reachable(m, latest_of(m), h) && #[trigger] word_defined(m, h, name, op) && (m[h + 4]
            & 64) != 0
}

/// Like `dict_word_below`, with the immediate bit set on the header.
pub open spec fn dict_imm_below(m: Seq<u8>, name: Seq<u8>, op: u8, bound: int) -> bool {
    exists|h: u32|
        reachable(m, latest_of(m), h) && #[trigger] word_defined(m, h, name, op) && (m[h + 4]
            & 64) != 0 && h + 5 + name.len() < bound
}

/// Reachability survives any change that keeps the bytes past the
/// reserved region up to the old live end, in a possibly longer image.
proof fn lemma_reachable_frame(m: Seq<u8>, m2: Seq<u8>, from: u32, h: u32)
    requires
        reachable(m, from, h),
        m.len() <= m2.len(),
        forall|j: int| 48 <= j < m.len() ==> m[j] == m2[j],
    ensures
        reachable(m2, from, h),
    decreases from,
{
    reveal(reachable);
    if from != 0 && from != h {
        assert(le32_at(m2, from as int) == le32_at(m, from as int)) by {
            crate::cells::lemma_le32_congruence(m2, m, from as int);
        }
        lemma_reachable_frame(m, m2, le32_at(m, from as int), h);
    }
}

/// Chains compose: what the old newest header reaches, a walk that first
/// reaches the old newest header also reaches.
proof fn lemma_reachable_trans(m: Seq<u8>, a: u32, b: u32, h: u32)
    requires
        reachable(m, a, b),
        reachable(m, b, h),
    ensures
        reachable(m, a, h),
    decreases a,
{
    reveal(reachable);
    if a != b {
        lemma_reachable_trans(m, le32_at(m, a as int), b, h);
    }
}

/// A header reaches itself.
pub proof fn lemma_reachable_self(m: Seq<u8>, h: u32)
    requires
        h != 0,
    ensures
        reachable(m, h, h),
{
    reveal(reachable);
}

/// One link step: a header whose link cell holds a lower nonzero header
/// reaches it.
pub proof fn lemma_reachable_step(m: Seq<u8>, from: u32, h: u32)
    requires
        48 <= from,
        from % 4 == 0,
        from + 4 <= m.len(),
        le32_at(m, from as int) == h,
        h < from,
        h != 0,
    ensures
        reachable(m, from, h),
{
    reveal(reachable);
    lemma_reachable_self(m, h);
}

/// Every defined word survives a change that keeps the bytes past the
/// reserved region up to the old live end and either keeps the newest
/// header or prepends headers that chain down to it.
pub proof fn lemma_dict_frame(m: Seq<u8>, m2: Seq<u8>)
    requires
        m.len() <= m2.len(),
        forall|j: int| 48 <= j < m.len() ==> m[j] == m2[j],
        latest_of(m2) == latest_of(m) || latest_of(m) == 0 || reachable(
            m2,
            latest_of(m2),
            latest_of(m),
        ),
    ensures
        forall|name: Seq<u8>, op: u8, bound: int|
            dict_word_below(m, name, op, bound) ==> #[trigger] dict_word_below(
                m2,
                name,
                op,
                bound,
            ),
        forall|name: Seq<u8>, op: u8, bound: int|
            dict_imm_below(m, name, op, bound) ==> #[trigger] dict_imm_below(m2, name, op, bound),
{
    reveal(word_defined);
    reveal(reachable);
    assert forall|name: Seq<u8>, op: u8, bound: int|
        dict_word_below(m, name, op, bound) implies #[trigger] dict_word_below(
        m2,
        name,
        op,
        bound,
    ) by {
        let h = choose|h: u32|
            reachable(m, latest_of(m), h) && #[trigger] word_defined(m, h, name, op) && h + 5
                + name.len() < bound;
        lemma_reachable_frame(m, m2, latest_of(m), h);
        assert forall|j: int| 0 <= j < name.len() implies m2[h + 5 + j] == name[j] by {
            assert(m2[h + 5 + j] == m[h + 5 + j]);
        }
        assert(word_defined(m2, h, name, op));
        if latest_of(m2) != latest_of(m) {
            lemma_reachable_trans(m2, latest_of(m2), latest_of(m), h);
        }
        assert(reachable(m2, latest_of(m2), h));
    }
    assert forall|name: Seq<u8>, op: u8, bound: int|
        dict_imm_below(m, name, op, bound) implies #[trigger] dict_imm_below(
        m2,
        name,
        op,
        bound,
    ) by {
        let h = choose|h: u32|
            reachable(m, latest_of(m), h) && #[trigger] word_defined(m, h, name, op) && (m[h + 4]
                & 64) != 0 && h + 5 + name.len() < bound;
        lemma_reachable_frame(m, m2, latest_of(m), h);
        assert forall|j: int| 0 <= j < name.len() implies m2[h + 5 + j] == name[j] by {
            assert(m2[h + 5 + j] == m[h + 5 + j]);
        }
        assert(word_defined(m2, h, name, op));
        if latest_of(m2) != latest_of(m) {
            lemma_reachable_trans(m2, latest_of(m2), latest_of(m), h);
        }
        assert(reachable(m2, latest_of(m2), h));
    }
}

/// A word wholly below one bound is wholly below any larger bound.
pub proof fn lemma_below_weaken(m: Seq<u8>, name: Seq<u8>, op: u8, b1: int, b2: int)
    requires
        dict_word_below(m, name, op, b1),
        b1 <= b2,
    ensures
        dict_word_below(m, name, op, b2),
{
    let h = choose|h: u32|
        reachable(m, latest_of(m), h) && #[trigger] word_defined(m, h, name, op) && h + 5
            + name.len() < b1;
    assert(reachable(m, latest_of(m), h) && word_defined(m, h, name, op) && h + 5 + name.len()
        < b2);
}

/// A word defined below some bound is defined outright.
pub proof fn lemma_below_has(m: Seq<u8>, name: Seq<u8>, op: u8, b: int)
    requires
        dict_word_below(m, name, op, b),
    ensures
        dict_has(m, name, op),
{
    let h = choose|h: u32|
        reachable(m, latest_of(m), h) && #[trigger] word_defined(m, h, name, op) && h + 5
            + name.len() < b;
    assert(reachable(m, latest_of(m), h) && word_defined(m, h, name, op));
}

/// An immediate word wholly below one bound is wholly below any larger
/// bound.
pub proof fn lemma_imm_weaken(m: Seq<u8>, name: Seq<u8>, op: u8, b1: int, b2: int)
    requires
        dict_imm_below(m, name, op, b1),
        b1 <= b2,
    ensures
        dict_imm_below(m, name, op, b2),
{
    let h = choose|h: u32|
        reachable(m, latest_of(m), h) && #[trigger] word_defined(m, h, name, op) && (m[h + 4]
            & 64) != 0 && h + 5 + name.len() < b1;
    assert(reachable(m, latest_of(m), h) && word_defined(m, h, name, op) && (m[h + 4] & 64) != 0
        && h + 5 + name.len() < b2);
}

/// An immediate word defined below some bound is immediate outright.
pub proof fn lemma_imm_has(m: Seq<u8>, name: Seq<u8>, op: u8, b: int)
    requires
        dict_imm_below(m, name, op, b),
    ensures
        dict_has_immediate(m, name, op),
{
    let h = choose|h: u32|
        reachable(m, latest_of(m), h) && #[trigger] word_defined(m, h, name, op) && (m[h + 4]
            & 64) != 0 && h + 5 + name.len() < b;
    assert(reachable(m, latest_of(m), h) && word_defined(m, h, name, op) && (m[h + 4] & 64) != 0);
}

/// Reachability survives a flag toggle on the newest header: the toggled
/// byte sits above every link cell the walk reads.
proof fn lemma_reachable_toggle(m: Seq<u8>, lat: u32, bit: u8, from: u32, h: u32)
    requires
        reachable(m, from, h),
        from <= lat,
        lat + 4 < m.len(),
    ensures
        reachable(toggle_flag(m, lat, bit), from, h),
    decreases from,
{
    reveal(reachable);
    reveal(reachable);
    if from != 0 && from != h {
        let m2 = toggle_flag(m, lat, bit);
        assert(le32_at(m2, from as int) == le32_at(m, from as int)) by {
            crate::cells::lemma_le32_congruence(m2, m, from as int);
        }
        lemma_reachable_toggle(m, lat, bit, le32_at(m, from as int), h);
    }
}

/// Toggling the immediate bit of the newest header keeps every earlier
/// word defined as it was, keeps the newest word defined, and marks it
/// immediate when its bit was clear.
pub proof fn lemma_dict_toggle(m: Seq<u8>, lat: u32)
    requires
        latest_of(m) == lat,
        48 <= lat,
        lat % 4 == 0,
        lat + 4 < m.len(),
    ensures
        latest_of(toggle_flag(m, lat, 64)) == lat,
        toggle_flag(m, lat, 64).len() == m.len(),
        forall|name: Seq<u8>, op: u8, bound: int|
            bound <= lat && dict_word_below(m, name, op, bound) ==> #[trigger] dict_word_below(
                toggle_flag(m, lat, 64),
                name,
                op,
                bound,
            ),
        forall|name: Seq<u8>, op: u8, bound: int|
            bound <= lat && dict_imm_below(m, name, op, bound) ==> #[trigger] dict_imm_below(
                toggle_flag(m, lat, 64),
                name,
                op,
                bound,
            ),
        forall|name: Seq<u8>, op: u8|
            word_defined(m, lat, name, op) ==> #[trigger] word_defined(
                toggle_flag(m, lat, 64),
                lat,
                name,
                op,
            ) && (toggle_flag(m, lat, 64)[lat + 4] & 64) != (m[lat + 4] & 64),
        forall|name: Seq<u8>, op: u8|
            word_defined(m, lat, name, op) && (m[lat + 4] & 64) == 0 ==> #[trigger] dict_word_below(
                toggle_flag(m, lat, 64),
                name,
                op,
                m.len() as int,
            ) && dict_imm_below(toggle_flag(m, lat, 64), name, op, m.len() as int),
{
    reveal(word_defined);
    reveal(reachable);
    let m2 = toggle_flag(m, lat, 64);
    assert(latest_of(m2) == lat) by {
        crate::cells::lemma_le32_congruence(m2, m, 0);
    }
    let f = m[lat + 4];
    assert((f ^ 64) & 63 == f & 63 && (f ^ 64) & 32 == f & 32 && ((f ^ 64) & 64) != (f & 64))
        by (bit_vector);
    assert forall|name: Seq<u8>, op: u8, bound: int|
        bound <= lat && dict_word_below(m, name, op, bound) implies #[trigger] dict_word_below(
        m2,
        name,
        op,
        bound,
    ) by {
        let h = choose|h: u32|
            reachable(m, latest_of(m), h) && #[trigger] word_defined(m, h, name, op) && h + 5
                + name.len() < bound;
        lemma_reachable_toggle(m, lat, 64, lat, h);
        assert forall|j: int| 0 <= j < name.len() implies m2[h + 5 + j] == name[j] by {
            assert(m2[h + 5 + j] == m[h + 5 + j]);
        }
        assert(word_defined(m2, h, name, op));
    }
    assert forall|name: Seq<u8>, op: u8, bound: int|
        bound <= lat && dict_imm_below(m, name, op, bound) implies #[trigger] dict_imm_below(
        m2,
        name,
        op,
        bound,
    ) by {
        let h = choose|h: u32|
            reachable(m, latest_of(m), h) && #[trigger] word_defined(m, h, name, op) && (m[h + 4]
                & 64) != 0 && h + 5 + name.len() < bound;
        lemma_reachable_toggle(m, lat, 64, lat, h);
        assert forall|j: int| 0 <= j < name.len() implies m2[h + 5 + j] == name[j] by {
            assert(m2[h + 5 + j] == m[h + 5 + j]);
        }
        assert(word_defined(m2, h, name, op));
    }
    assert forall|name: Seq<u8>, op: u8| word_defined(m, lat, name, op) implies #[trigger] word_defined(
        m2,
        lat,
        name,
        op,
    ) && (m2[lat + 4] & 64) != (m[lat + 4] & 64) by {
        assert forall|j: int| 0 <= j < name.len() implies m2[lat + 5 + j] == name[j] by {
            assert(m2[lat + 5 + j] == m[lat + 5 + j]);
        }
    }
    assert forall|name: Seq<u8>, op: u8|
        word_defined(m, lat, name, op) && (m[lat + 4] & 64) == 0 implies #[trigger] dict_word_below(
        m2,
        name,
        op,
        m.len() as int,
    ) && dict_imm_below(m2, name, op, m.len() as int) by {
        assert(word_defined(m2, lat, name, op));
        assert((m2[lat + 4] & 64) != 0);
        lemma_reachable_self(m2, lat);
    }
}

/// An all-ASCII name passes the host boundary unchanged.
pub proof fn lemma_ascii_name(s: Seq<char>)
    requires
        forall|i: int| 0 <= i < s.len() ==> (s[i] as int) < 128,
    ensures
        ascii_filter(s).len() == s.len(),
        forall|i: int| 0 <= i < s.len() ==> ascii_filter(s)[i] == (s[i] as u8),
    decreases s.len(),
{
    if s.len() > 0 {
        lemma_ascii_name(s.drop_last());
    }
}

/// Copying a name wholly below its destination, with the destination at
/// the live end of the image, cannot fail: the copy lands at the end, one
/// byte at a time, and the source and everything else below stay as they
/// were.
pub proof fn lemma_copy_ok(m: Seq<u8>, src: u32, dst: u32, n: u32, i: u32)
    requires
        i <= n,
        n <= 31,
        src + n <= dst,
        dst <= m.len(),
        m.len() + 4 * (n - i) + 64 <= 0xFFFF_FF00,
    ensures
        copy_rec(m, src, dst, n, i).2 == VMSuccess::Ok(()),
        copy_rec(m, src, dst, n, i).1 == dst + (n - i),
        copy_rec(m, src, dst, n, i).0.len() == if m.len() >= dst + (n - i) {
            m.len() as int
        } else {
            dst + (n - i)
        },
        forall|j: int|
            0 <= j < m.len() && !(dst <= j < dst + (n - i)) ==> copy_rec(m, src, dst, n, i).0[j]
                == m[j],
        forall|j: int|
            dst <= j < dst + (n - i) ==> copy_rec(m, src, dst, n, i).0[j] == m[src + i + (j
                - dst)],
    decreases n - i,
{
    if i < n {
        vstd::arithmetic::div_mod::lemma_small_mod((src + i) as nat, 0x1_0000_0000);
        vstd::arithmetic::div_mod::lemma_small_mod((dst + 1) as nat, 0x1_0000_0000);
        let a = wadd(src, i as int);
        assert(a == src + i);
        let m2 = store8(m, dst as int, m[a as int]);
        lemma_copy_ok(m2, src, wadd(dst, 1), n, (i + 1) as u32);
        let r0 = copy_rec(m2, src, wadd(dst, 1), n, (i + 1) as u32).0;
        assert(r0[dst as int] == m2[dst as int]);
        assert forall|j: int|
            dst <= j < dst + (n - i) implies copy_rec(m, src, dst, n, i).0[j] == m[src + i + (j
            - dst)] by {
            if j == dst {
                assert(r0[j] == m2[dst as int]);
            } else {
                assert(r0[j] == m2[src + (i + 1) + (j - dst - 1)]);
            }
        }
        assert forall|j: int|
            0 <= j < m.len() && !(dst <= j < dst + (n - i)) implies copy_rec(m, src, dst, n, i).0[j]
            == m[j] by {
            assert(r0[j] == m2[j]);
        }
    }
}

/// On a fresh image whose bump pointer sits at the live end, `create` with
/// a name from the scratch buffer succeeds: the new header starts at the
/// aligned bump pointer, becomes the newest, and the bump pointer ends at
/// the new live end.
#[verifier::rlimit(100)]
pub proof fn lemma_boot_create(m: Seq<u8>, data: Seq<u32>, n: u32)
    requires
        48 <= m.len(),
        m.len() + 128 <= 0xFFFF_0000,
        m.len() <= here_of(m) <= m.len() + 3,
        1 <= n <= 31,
    ensures
        ({
            let h = align_up(here_of(m));
            let c = create_spec(m, data.push(16u32).push(n));
            &&& c.2 == VMSuccess::Ok(())
            &&& c.1 == data
            &&& c.0.len() == h + 5 + n
            &&& here_of(c.0) == h + 5 + n
            &&& latest_of(c.0) == h
        }),
{
    reveal(create_spec);
    lemma_align_up(here_of(m));
    let h = align_up(here_of(m));
    let d = data.push(16u32).push(n);
    assert(d.last() == n && d.drop_last().last() == 16u32);
    assert(d.drop_last().drop_last() =~= data);
    let m1 = store32(m, 12, h);
    let lat = latest_of(m1);
    assert(lat == latest_of(m)) by {
        crate::cells::lemma_le32_congruence(m1, m, 0);
    }
    assert(h + 4 <= m1.len() + 64);
    let m2 = store32(m1, h as int, lat);
    let h1 = wadd(h, 4);
    assert(h1 == h + 4);
    assert(m2.len() == h + 4);
    let m3 = store8(m2, h1 as int, (n % 256) as u8);
    assert(m3.len() == h + 5);
    let h2 = wadd(h1, 1);
    assert(h2 == h + 5);
    lemma_copy_ok(m3, 16, h2, n, 0);
    let res = copy_rec(m3, 16, h2, n, 0);
    assert(res.1 == h + 5 + n);
    let inner = store32(res.0, 0, h);
    let c0 = store32(inner, 12, res.1);
    assert(c0.len() == h + 5 + n);
    assert(here_of(c0) == res.1) by {
        crate::cells::lemma_store32_le32(inner, 12, res.1);
    }
    assert(latest_of(c0) == h) by {
        crate::cells::lemma_store32_le32(res.0, 0, h);
        assert(c0[0] == inner[0] && c0[1] == inner[1] && c0[2] == inner[2] && c0[3] == inner[3]);
        crate::cells::lemma_le32_congruence(c0, inner, 0);
    }
}

/// Every primitive word of the required set, defined on a header wholly
/// below `bound`; `immediate` already carries its immediate bit.
#[verifier::opaque]
pub open spec fn prims_below(m: Seq<u8>, bound: int) -> bool {
    &&& dict_word_below(m, crate::io::ascii("lit"@), OP_LIT, bound)
    &&& dict_word_below(m, crate::io::ascii("dup"@), OP_DUP, bound)
    &&& dict_word_below(m, crate::io::ascii("drop"@), OP_DROP, bound)
    &&& dict_word_below(m, crate::io::ascii("swap"@), OP_SWAP, bound)
    &&& dict_word_below(m, crate::io::ascii("depth"@), OP_DEPTH, bound)
    &&& dict_word_below(m, crate::io::ascii(">r"@), OP_TO_R, bound)
    &&& dict_word_below(m, crate::io::ascii("r>"@), OP_FROM_R, bound)
    &&& dict_word_below(m, crate::io::ascii("@"@), OP_FETCH, bound)
    &&& dict_word_below(m, crate::io::ascii("c@"@), OP_C_FETCH, bound)
    &&& dict_word_below(m, crate::io::ascii("!"@), OP_STORE, bound)
    &&& dict_word_below(m, crate::io::ascii("align"@), OP_ALIGN, bound)
    &&& dict_word_below(m, crate::io::ascii("c!"@), OP_C_STORE, bound)
    &&& dict_word_below(m, crate::io::ascii("+"@), OP_ADD, bound)
    &&& dict_word_below(m, crate::io::ascii("-"@), OP_SUBTRACT, bound)
    &&& dict_word_below(m, crate::io::ascii("*"@), OP_MULTIPLY, bound)
    &&& dict_word_below(m, crate::io::ascii("/mod"@), OP_DIV_MOD, bound)
    &&& dict_word_below(m, crate::io::ascii("="@), OP_EQUALS, bound)
    &&& dict_word_below(m, crate::io::ascii("<"@), OP_LESS_THAN, bound)
    &&& dict_word_below(m, crate::io::ascii(">"@), OP_GREATER_THAN, bound)
    &&& dict_word_below(m, crate::io::ascii("and"@), OP_AND, bound)
    &&& dict_word_below(m, crate::io::ascii("or"@), OP_OR, bound)
    &&& dict_word_below(m, crate::io::ascii("xor"@), OP_XOR, bound)
    &&& dict_word_below(m, crate::io::ascii("invert"@), OP_INVERT, bound)
    &&& dict_word_below(m, crate::io::ascii("key"@), OP_KEY, bound)
    &&& dict_word_below(m, crate::io::ascii("word"@), OP_WORD, bound)
    &&& dict_word_below(m, crate::io::ascii("emit"@), OP_EMIT, bound)
    &&& dict_word_below(m, crate::io::ascii("find"@), OP_FIND, bound)
    &&& dict_word_below(m, crate::io::ascii("number"@), OP_NUMBER, bound)
    &&& dict_word_below(m, crate::io::ascii(">cfa"@), OP_TO_CFA, bound)
    &&& dict_word_below(m, crate::io::ascii("["@), OP_L_BRACKET, bound)
    &&& dict_word_below(m, crate::io::ascii("]"@), OP_R_BRACKET, bound)
    &&& dict_word_below(m, crate::io::ascii("create"@), OP_CREATE, bound)
    &&& dict_word_below(m, crate::io::ascii(","@), OP_COMMA, bound)
    &&& dict_word_below(m, crate::io::ascii("c,"@), OP_C_COMMA, bound)
    &&& dict_word_below(m, crate::io::ascii("immediate"@), OP_IMMEDIATE, bound)
    &&& dict_word_below(m, crate::io::ascii("hidden"@), OP_HIDDEN, bound)
    &&& dict_word_below(m, crate::io::ascii("execute"@), OP_EXECUTE, bound)
    &&& dict_word_below(m, crate::io::ascii("branch"@), OP_BRANCH, bound)
    &&& dict_word_below(m, crate::io::ascii("0branch"@), OP_BRANCH_IF_ZERO, bound)
    &&& dict_word_below(m, crate::io::ascii("exit"@), OP_EXIT, bound)
    &&& dict_word_below(m, crate::io::ascii("reset"@), OP_RESET, bound)
    &&& dict_word_below(m, crate::io::ascii("prompt"@), OP_PROMPT, bound)
    &&& dict_word_below(m, crate::io::ascii("interpret"@), OP_INTERPRET, bound)
    &&& dict_word_below(m, crate::io::ascii("litstring"@), OP_LIT_STRING, bound)
    &&& dict_word_below(m, crate::io::ascii("'"@), OP_TICK, bound)
    &&& dict_imm_below(m, crate::io::ascii("immediate"@), OP_IMMEDIATE, bound)
}

/// The boot dictionary: every primitive word of the required set, the
/// colon-coded variable words, `:`, `;` and `quit`, each defined,
/// findable, non-hidden, with the right opcode byte at its code field;
/// `immediate` and `;` carry the immediate bit.
#[verifier::opaque]
pub open spec fn boot_dictionary(m: Seq<u8>) -> bool {
    &&& dict_has(m, crate::io::ascii("lit"@), OP_LIT)
    &&& dict_has(m, crate::io::ascii("dup"@), OP_DUP)
    &&& dict_has(m, crate::io::ascii("drop"@), OP_DROP)
    &&& dict_has(m, crate::io::ascii("swap"@), OP_SWAP)
    &&& dict_has(m, crate::io::ascii("depth"@), OP_DEPTH)
    &&& dict_has(m, crate::io::ascii(">r"@), OP_TO_R)
    &&& dict_has(m, crate::io::ascii("r>"@), OP_FROM_R)
    &&& dict_has(m, crate::io::ascii("@"@), OP_FETCH)
    &&& dict_has(m, crate::io::ascii("c@"@), OP_C_FETCH)
    &&& dict_has(m, crate::io::ascii("!"@), OP_STORE)
    &&& dict_has(m, crate::io::ascii("align"@), OP_ALIGN)
    &&& dict_has(m, crate::io::ascii("c!"@), OP_C_STORE)
    &&& dict_has(m, crate::io::ascii("+"@), OP_ADD)
    &&& dict_has(m, crate::io::ascii("-"@), OP_SUBTRACT)
    &&& dict_has(m, crate::io::ascii("*"@), OP_MULTIPLY)
    &&& dict_has(m, crate::io::ascii("/mod"@), OP_DIV_MOD)
    &&& dict_has(m, crate::io::ascii("="@), OP_EQUALS)
    &&& dict_has(m, crate::io::ascii("<"@), OP_LESS_THAN)
    &&& dict_has(m, crate::io::ascii(">"@), OP_GREATER_THAN)
    &&& dict_has(m, crate::io::ascii("and"@), OP_AND)
    &&& dict_has(m, crate::io::ascii("or"@), OP_OR)
    &&& dict_has(m, crate::io::ascii("xor"@), OP_XOR)
    &&& dict_has(m, crate::io::ascii("invert"@), OP_INVERT)
    &&& dict_has(m, crate::io::ascii("key"@), OP_KEY)
    &&& dict_has(m, crate::io::ascii("word"@), OP_WORD)
    &&& dict_has(m, crate::io::ascii("emit"@), OP_EMIT)
    &&& dict_has(m, crate::io::ascii("find"@), OP_FIND)
    &&& dict_has(m, crate::io::ascii("number"@), OP_NUMBER)
    &&& dict_has(m, crate::io::ascii(">cfa"@), OP_TO_CFA)
    &&& dict_has(m, crate::io::ascii("["@), OP_L_BRACKET)
    &&& dict_has(m, crate::io::ascii("]"@), OP_R_BRACKET)
    &&& dict_has(m, crate::io::ascii("create"@), OP_CREATE)
    &&& dict_has(m, crate::io::ascii(","@), OP_COMMA)
    &&& dict_has(m, crate::io::ascii("c,"@), OP_C_COMMA)
    &&& dict_has(m, crate::io::ascii("immediate"@), OP_IMMEDIATE)
    &&& dict_has(m, crate::io::ascii("hidden"@), OP_HIDDEN)
    &&& dict_has(m, crate::io::ascii("execute"@), OP_EXECUTE)
    &&& dict_has(m, crate::io::ascii("branch"@), OP_BRANCH)
    &&& dict_has(m, crate::io::ascii("0branch"@), OP_BRANCH_IF_ZERO)
    &&& dict_has(m, crate::io::ascii("exit"@), OP_EXIT)
    &&& dict_has(m, crate::io::ascii("reset"@), OP_RESET)
    &&& dict_has(m, crate::io::ascii("prompt"@), OP_PROMPT)
    &&& dict_has(m, crate::io::ascii("interpret"@), OP_INTERPRET)
    &&& dict_has(m, crate::io::ascii("litstring"@), OP_LIT_STRING)
    &&& dict_has(m, crate::io::ascii("'"@), OP_TICK)
    &&& dict_has(m, crate::io::ascii("base"@), 0)
    &&& dict_has(m, crate::io::ascii("here"@), 0)
    &&& dict_has(m, crate::io::ascii("latest"@), 0)
    &&& dict_has(m, crate::io::ascii("state"@), 0)
    &&& dict_has(m, crate::io::ascii(":"@), 0)
    &&& dict_has(m, crate::io::ascii(";"@), 0)
    &&& dict_has(m, crate::io::ascii("quit"@), 0)
    &&& dict_has_immediate(m, crate::io::ascii("immediate"@), OP_IMMEDIATE)
    &&& dict_has_immediate(m, crate::io::ascii(";"@), 0)
}

/// The primitive words survive any change that preserves each word below
/// the cap.
proof fn lemma_prims_transport(m: Seq<u8>, m2: Seq<u8>, bound: int, cap: int)
    requires
        prims_below(m, bound),
        bound <= cap,
        forall|nm: Seq<u8>, o: u8, b: int|
            b <= cap && dict_word_below(m, nm, o, b) ==> #[trigger] dict_word_below(m2, nm, o, b),
        forall|nm: Seq<u8>, o: u8, b: int|
            b <= cap && dict_imm_below(m, nm, o, b) ==> #[trigger] dict_imm_below(m2, nm, o, b),
    ensures
        prims_below(m2, bound),
{
    reveal(prims_below);
}

/// The primitive words below any bound, together with the colon-coded
/// words, make up the whole boot dictionary.
#[verifier::rlimit(100)]
proof fn lemma_boot_dictionary(m: Seq<u8>, pbound: int)
    requires
        prims_below(m, pbound),
        dict_word_below(m, crate::io::ascii("base"@), 0, m.len() as int),
        dict_word_below(m, crate::io::ascii("here"@), 0, m.len() as int),
        dict_word_below(m, crate::io::ascii("latest"@), 0, m.len() as int),
        dict_word_below(m, crate::io::ascii("state"@), 0, m.len() as int),
        dict_word_below(m, crate::io::ascii(":"@), 0, m.len() as int),
        dict_word_below(m, crate::io::ascii(";"@), 0, m.len() as int),
        dict_word_below(m, crate::io::ascii("quit"@), 0, m.len() as int),
        dict_imm_below(m, crate::io::ascii(";"@), 0, m.len() as int),
    ensures
        boot_dictionary(m),
{
    reveal(prims_below);
    reveal(boot_dictionary);
    lemma_below_has(m, crate::io::ascii("lit"@), OP_LIT, pbound);
    lemma_below_has(m, crate::io::ascii("dup"@), OP_DUP, pbound);
    lemma_below_has(m, crate::io::ascii("drop"@), OP_DROP, pbound);
    lemma_below_has(m, crate::io::ascii("swap"@), OP_SWAP, pbound);
    lemma_below_has(m, crate::io::ascii("depth"@), OP_DEPTH, pbound);
    lemma_below_has(m, crate::io::ascii(">r"@), OP_TO_R, pbound);
    lemma_below_has(m, crate::io::ascii("r>"@), OP_FROM_R, pbound);
    lemma_below_has(m, crate::io::ascii("@"@), OP_FETCH, pbound);
    lemma_below_has(m, crate::io::ascii("c@"@), OP_C_FETCH, pbound);
    lemma_below_has(m, crate::io::ascii("!"@), OP_STORE, pbound);
    lemma_below_has(m, crate::io::ascii("align"@), OP_ALIGN, pbound);
    lemma_below_has(m, crate::io::ascii("c!"@), OP_C_STORE, pbound);
    lemma_below_has(m, crate::io::ascii("+"@), OP_ADD, pbound);
    lemma_below_has(m, crate::io::ascii("-"@), OP_SUBTRACT, pbound);
    lemma_below_has(m, crate::io::ascii("*"@), OP_MULTIPLY, pbound);
    lemma_below_has(m, crate::io::ascii("/mod"@), OP_DIV_MOD, pbound);
    lemma_below_has(m, crate::io::ascii("="@), OP_EQUALS, pbound);
    lemma_below_has(m, crate::io::ascii("<"@), OP_LESS_THAN, pbound);
    lemma_below_has(m, crate::io::ascii(">"@), OP_GREATER_THAN, pbound);
    lemma_below_has(m, crate::io::ascii("and"@), OP_AND, pbound);
    lemma_below_has(m, crate::io::ascii("or"@), OP_OR, pbound);
    lemma_below_has(m, crate::io::ascii("xor"@), OP_XOR, pbound);
    lemma_below_has(m, crate::io::ascii("invert"@), OP_INVERT, pbound);
    lemma_below_has(m, crate::io::ascii("key"@), OP_KEY, pbound);
    lemma_below_has(m, crate::io::ascii("word"@), OP_WORD, pbound);
    lemma_below_has(m, crate::io::ascii("emit"@), OP_EMIT, pbound);
    lemma_below_has(m, crate::io::ascii("find"@), OP_FIND, pbound);
    lemma_below_has(m, crate::io::ascii("number"@), OP_NUMBER, pbound);
    lemma_below_has(m, crate::io::ascii(">cfa"@), OP_TO_CFA, pbound);
    lemma_below_has(m, crate::io::ascii("["@), OP_L_BRACKET, pbound);
    lemma_below_has(m, crate::io::ascii("]"@), OP_R_BRACKET, pbound);
    lemma_below_has(m, crate::io::ascii("create"@), OP_CREATE, pbound);
    lemma_below_has(m, crate::io::ascii(","@), OP_COMMA, pbound);
    lemma_below_has(m, crate::io::ascii("c,"@), OP_C_COMMA, pbound);
    lemma_below_has(m, crate::io::ascii("immediate"@), OP_IMMEDIATE, pbound);
    lemma_below_has(m, crate::io::ascii("hidden"@), OP_HIDDEN, pbound);
    lemma_below_has(m, crate::io::ascii("execute"@), OP_EXECUTE, pbound);
    lemma_below_has(m, crate::io::ascii("branch"@), OP_BRANCH, pbound);
    lemma_below_has(m, crate::io::ascii("0branch"@), OP_BRANCH_IF_ZERO, pbound);
    lemma_below_has(m, crate::io::ascii("exit"@), OP_EXIT, pbound);
    lemma_below_has(m, crate::io::ascii("reset"@), OP_RESET, pbound);
    lemma_below_has(m, crate::io::ascii("prompt"@), OP_PROMPT, pbound);
    lemma_below_has(m, crate::io::ascii("interpret"@), OP_INTERPRET, pbound);
    lemma_below_has(m, crate::io::ascii("litstring"@), OP_LIT_STRING, pbound);
    lemma_below_has(m, crate::io::ascii("'"@), OP_TICK, pbound);
    lemma_below_has(m, crate::io::ascii("base"@), 0, m.len() as int);
    lemma_below_has(m, crate::io::ascii("here"@), 0, m.len() as int);
    lemma_below_has(m, crate::io::ascii("latest"@), 0, m.len() as int);
    lemma_below_has(m, crate::io::ascii("state"@), 0, m.len() as int);
    lemma_below_has(m, crate::io::ascii(":"@), 0, m.len() as int);
    lemma_below_has(m, crate::io::ascii(";"@), 0, m.len() as int);
    lemma_below_has(m, crate::io::ascii("quit"@), 0, m.len() as int);
    lemma_imm_has(m, crate::io::ascii("immediate"@), OP_IMMEDIATE, pbound);
    lemma_imm_has(m, crate::io::ascii(";"@), 0, m.len() as int);
}

/// The exact shape of one cell write at an aligned bump pointer sitting
/// at the live end: it succeeds, lands the cell there, advances the bump
/// pointer one cell, and leaves every other byte and every whole cell
/// below as they were.
#[verifier::rlimit(100)]
proof fn lemma_write_cell_shape(m: Seq<u8>, item: u32)
    requires
        48 <= m.len(),
        m.len() + 512 <= 0xFFFF_0500,
        here_of(m) % 4 == 0,
        m.len() <= here_of(m) <= m.len() + 3,
    ensures
        ({
            let r = crate::image::w32h(m, item);
            &&& r.1 == VMSuccess::Ok(())
            &&& here_of(r.0) == here_of(m) + 4
            &&& r.0.len() == here_of(m) + 4
            &&& le32_at(r.0, here_of(m) as int) == item
            &&& (forall|j: int|
                0 <= j < m.len() && !(12 <= j < 16) ==> #[trigger] r.0[j] == m[j])
            &&& (forall|a: int|
                16 <= a && a + 4 <= m.len() ==> #[trigger] le32_at(r.0, a) == le32_at(m, a))
            &&& latest_of(r.0) == latest_of(m)
            &&& base_of(r.0) == base_of(m)
            &&& state_of(r.0) == state_of(m)
        }),
{
    let h = here_of(m);
    vstd::arithmetic::div_mod::lemma_small_mod((h + 4) as nat, 0x1_0000_0000);
    let stored = store32(m, h as int, item);
    let r0 = crate::image::w32h(m, item).0;
    crate::cells::lemma_store32_le32(stored, 12, wadd(h, 4));
    crate::cells::lemma_store32_le32(m, h as int, item);
    crate::cells::lemma_le32_congruence(r0, stored, h as int);
    crate::cells::lemma_le32_congruence(r0, m, 0);
    crate::cells::lemma_le32_congruence(r0, m, 4);
    crate::cells::lemma_le32_congruence(r0, m, 8);
    assert forall|a: int| 16 <= a && a + 4 <= m.len() implies #[trigger] le32_at(r0, a)
        == le32_at(m, a) by {
        crate::cells::lemma_le32_congruence(r0, m, a);
    }
}

impl VM {
    /// Scan a boot name into the scratch buffer and `create` its header;
    /// afterwards the bump pointer again sits at the live end, just past
    /// the new header.
    #[verifier::rlimit(100)]
    fn boot_create_word(&mut self, word: &str)
        requires
            old(self).wf(),
            old(self)@.mem.len() + 512 <= 0xFFFF_0000,
            old(self)@.mem.len() <= here_of(old(self)@.mem) <= old(self)@.mem.len() + 3,
            1 <= ascii_filter(word@).len() <= 31,
            latest_of(old(self)@.mem) == 0 || latest_of(old(self)@.mem) + 4 < old(self)@.mem.len(),
        ensures
            final(self).wf(),
            final(self)@ == (VMView { mem: final(self)@.mem, ..old(self)@ }),
            final(self)@.mem.len() == here_of(final(self)@.mem),
            old(self)@.mem.len() <= final(self)@.mem.len() <= old(self)@.mem.len() + 45,
            latest_of(final(self)@.mem) + 4 < final(self)@.mem.len(),
            48 <= latest_of(final(self)@.mem),
            latest_of(final(self)@.mem) % 4 == 0,
            old(self)@.mem.len() <= latest_of(final(self)@.mem),
            le32_at(final(self)@.mem, latest_of(final(self)@.mem) as int) == latest_of(
                old(self)@.mem,
            ),
            latest_of(old(self)@.mem) < latest_of(final(self)@.mem),
            latest_of(final(self)@.mem) + 5 + ascii_filter(word@).len()
                == final(self)@.mem.len(),
            final(self)@.mem[latest_of(final(self)@.mem) + 4] == ascii_filter(word@).len() as u8,
            (forall|j: int|
                0 <= j < ascii_filter(word@).len() ==> #[trigger] final(self)@.mem[latest_of(
                    final(self)@.mem,
                ) + 5 + j] == ascii_filter(word@)[j]),
            (forall|j: int|
                48 <= j < old(self)@.mem.len() ==> #[trigger] final(self)@.mem[j]
                    == old(self)@.mem[j]),
            base_of(final(self)@.mem) == base_of(old(self)@.mem),
            state_of(final(self)@.mem) == state_of(old(self)@.mem),
    {
        self.buffer_word(word);
        proof {
            let m = old(self)@.mem;
            let bs = ascii_filter(word@);
            assert(bs.take(bs.len() as int) =~= bs);
            assert(here_of(self@.mem) == here_of(m) && latest_of(self@.mem) == latest_of(m)) by {
                crate::cells::lemma_le32_congruence(self@.mem, m, 12);
                crate::cells::lemma_le32_congruence(self@.mem, m, 0);
            }
            lemma_boot_create(self@.mem, old(self)@.data, bs.len() as u32);
            crate::laws::lemma_create_bytes(self@.mem, old(self)@.data, bs.len() as u32);
        }
        let ghost spliced = self@.mem;
        match self.create() {
            Ok(u) => u,
            Err(e) => {
                proof {
                    assert(false);
                }
                return ;
            },
        };
        proof {
            let m = old(self)@.mem;
            let bs = ascii_filter(word@);
            let h = latest_of(self@.mem);
            lemma_align_up(here_of(m));
            assert forall|j: int| 0 <= j < bs.len() implies #[trigger] self@.mem[h + 5 + j]
                == bs[j] by {
                assert(self@.mem[h + 5 + j] == spliced[16 + j]);
            }
            assert forall|j: int| 48 <= j < m.len() implies #[trigger] self@.mem[j] == m[j] by {
                assert(self@.mem[j] == spliced[j]);
            }
            assert(base_of(self@.mem) == base_of(m) && state_of(self@.mem) == state_of(m)) by {
                assert(forall|j: int| 4 <= j < 12 ==> #[trigger] self@.mem[j] == spliced[j]);
                assert(forall|j: int| 4 <= j < 12 ==> #[trigger] spliced[j] == m[j]);
                crate::cells::lemma_le32_congruence(self@.mem, m, 4);
                crate::cells::lemma_le32_congruence(self@.mem, m, 8);
            }
        }
    }

    /// Append a word whose code field is the single opcode byte `op`;
    /// returns its execution token. Boot only: the bump pointer must sit
    /// at the live end of the image. The new word is then defined,
    /// findable and non-hidden, and every word defined before survives.
    #[verifier::rlimit(100)]
    pub fn add_builtin_word(&mut self, word: &str, op: u8) -> (xt: u32)
        requires
            old(self).wf(),
            old(self)@.mem.len() + 1024 <= 0xFFFF_0000,
            old(self)@.mem.len() <= here_of(old(self)@.mem) <= old(self)@.mem.len() + 3,
            1 <= ascii_filter(word@).len() <= 31,
            latest_of(old(self)@.mem) == 0 || latest_of(old(self)@.mem) + 4 < old(self)@.mem.len(),
        ensures
            final(self).wf(),
            final(self)@ == (VMView { mem: final(self)@.mem, ..old(self)@ }),
            final(self)@.mem.len() == here_of(final(self)@.mem),
            old(self)@.mem.len() <= final(self)@.mem.len() <= old(self)@.mem.len() + 64,
            xt as int + 1 == final(self)@.mem.len(),
            final(self)@.mem[xt as int] == op,
            48 <= xt,
            latest_of(final(self)@.mem) + 4 < final(self)@.mem.len(),
            48 <= latest_of(final(self)@.mem),
            latest_of(final(self)@.mem) % 4 == 0,
            old(self)@.mem.len() <= latest_of(final(self)@.mem),
            dict_word_below(
                final(self)@.mem,
                ascii_filter(word@),
                op,
                final(self)@.mem.len() as int,
            ),
            word_defined(final(self)@.mem, latest_of(final(self)@.mem), ascii_filter(word@), op),
            final(self)@.mem[latest_of(final(self)@.mem) + 4] == ascii_filter(word@).len() as u8,
            (forall|nm: Seq<u8>, o: u8, bound: int|
                dict_word_below(old(self)@.mem, nm, o, bound) ==> #[trigger] dict_word_below(
                    final(self)@.mem,
                    nm,
                    o,
                    bound,
                )),
            (forall|nm: Seq<u8>, o: u8, bound: int|
                dict_imm_below(old(self)@.mem, nm, o, bound) ==> #[trigger] dict_imm_below(
                    final(self)@.mem,
                    nm,
                    o,
                    bound,
                )),
            (forall|j: int|
                48 <= j < old(self)@.mem.len() ==> #[trigger] final(self)@.mem[j]
                    == old(self)@.mem[j]),
            base_of(final(self)@.mem) == base_of(old(self)@.mem),
            state_of(final(self)@.mem) == state_of(old(self)@.mem),
    {
        self.boot_create_word(word);
        let here = match self.read_u32(ADDR_HERE) {
            Ok(v) => v,
            Err(e) => {
                proof {
                    assert(false);
                }
                return 0;
            },
        };
        let ghost mid = self@.mem;
        match self.write_u8_here(op) {
            Ok(u) => u,
            Err(e) => {
                proof {
                    assert(false);
                }
                return 0;
            },
        };
        proof {
            vstd::arithmetic::div_mod::lemma_small_mod((here_of(mid) + 1) as nat, 0x1_0000_0000);
            crate::cells::lemma_store32_le32(
                store8(mid, here_of(mid) as int, op),
                12,
                wadd(here_of(mid), 1),
            );
            crate::cells::lemma_le32_congruence(self@.mem, mid, 0);
            crate::cells::lemma_le32_congruence(self@.mem, mid, 4);
            crate::cells::lemma_le32_congruence(self@.mem, mid, 8);
            let m0 = old(self)@.mem;
            let bs = ascii_filter(word@);
            let h = latest_of(mid);
            assert(self@.mem[here as int] == op);
            assert forall|j: int| 0 <= j < bs.len() implies #[trigger] self@.mem[h + 5 + j]
                == bs[j] by {
                assert(self@.mem[h + 5 + j] == mid[h + 5 + j]);
            }
            assert(self@.mem[h + 4] == mid[h + 4]);
            assert(self@.mem[h + 4] == bs.len() as u8);
            let nlen = bs.len() as u8;
            assert((nlen & 63) == nlen && (nlen & 32) == 0) by (bit_vector)
                requires
                    nlen <= 31,
            ;
            assert(word_defined(self@.mem, h, bs, op)) by {
                reveal(word_defined);
            }
            assert(latest_of(self@.mem) == h);
            lemma_reachable_self(self@.mem, h);
            assert(dict_word_below(self@.mem, bs, op, self@.mem.len() as int));
            assert forall|j: int| 48 <= j < m0.len() implies #[trigger] self@.mem[j] == m0[j] by {
                assert(self@.mem[j] == mid[j]);
            }
            if latest_of(m0) != 0 {
                assert(le32_at(self@.mem, h as int) == le32_at(mid, h as int)) by {
                    crate::cells::lemma_le32_congruence(self@.mem, mid, h as int);
                }
                lemma_reachable_step(self@.mem, h, latest_of(m0));
            }
            lemma_dict_frame(m0, self@.mem);
        }
        here
    }

    /// Begin a colon word's code field: lay down the colon-definition
    /// opcode byte at the bump pointer and align for the threaded body.
    #[verifier::rlimit(100)]
    fn boot_begin_body(&mut self) -> (xt: u32)
        requires
            old(self).wf(),
            old(self)@.mem.len() + 256 <= 0xFFFF_0300,
            old(self)@.mem.len() == here_of(old(self)@.mem),
            latest_of(old(self)@.mem) + 4 < old(self)@.mem.len(),
            48 <= latest_of(old(self)@.mem),
        ensures
            final(self).wf(),
            final(self)@ == (VMView { mem: final(self)@.mem, ..old(self)@ }),
            xt == old(self)@.mem.len(),
            48 <= xt < final(self)@.mem.len(),
            final(self)@.mem[xt as int] == 0,
            final(self)@.mem.len() == old(self)@.mem.len() + 1,
            final(self)@.mem.len() <= here_of(final(self)@.mem) <= final(self)@.mem.len() + 3,
            here_of(final(self)@.mem) % 4 == 0,
            here_of(final(self)@.mem) == align_up(wadd(xt, 1)),
            latest_of(final(self)@.mem) == latest_of(old(self)@.mem),
            latest_of(final(self)@.mem) + 4 < final(self)@.mem.len(),
            48 <= latest_of(final(self)@.mem),
            (forall|j: int|
                16 <= j < old(self)@.mem.len() ==> #[trigger] final(self)@.mem[j]
                    == old(self)@.mem[j]),
            base_of(final(self)@.mem) == base_of(old(self)@.mem),
            state_of(final(self)@.mem) == state_of(old(self)@.mem),
    {
        let xt = match self.read_u32(ADDR_HERE) {
            Ok(v) => v,
            Err(e) => {
                proof {
                    assert(false);
                }
                return 0;
            },
        };
        let ghost before8 = self@.mem;
        match self.write_u8_here(0) {
            Ok(u) => u,
            Err(e) => {
                proof {
                    assert(false);
                }
                return 0;
            },
        };
        proof {
            vstd::arithmetic::div_mod::lemma_small_mod(
                (here_of(before8) + 1) as nat,
                0x1_0000_0000,
            );
            crate::cells::lemma_store32_le32(
                store8(before8, here_of(before8) as int, 0),
                12,
                wadd(here_of(before8), 1),
            );
            crate::cells::lemma_le32_congruence(self@.mem, before8, 0);
            crate::cells::lemma_le32_congruence(self@.mem, before8, 4);
            crate::cells::lemma_le32_congruence(self@.mem, before8, 8);
        }
        let ghost before_align = self@.mem;
        match self.align() {
            Ok(u) => u,
            Err(e) => {
                proof {
                    assert(false);
                }
                return 0;
            },
        };
        proof {
            lemma_align_up(here_of(before_align));
            crate::cells::lemma_store32_le32(before_align, 12, align_up(here_of(before_align)));
            crate::cells::lemma_le32_congruence(self@.mem, before_align, 0);
            crate::cells::lemma_le32_congruence(self@.mem, before_align, 4);
            crate::cells::lemma_le32_congruence(self@.mem, before_align, 8);
            assert forall|j: int| 16 <= j < old(self)@.mem.len() implies #[trigger] self@.mem[j]
                == old(self)@.mem[j] by {
                assert(self@.mem[j] == before_align[j]);
                assert(before_align[j] == before8[j]);
            }
        }
        xt
    }

    /// Append one execution-token cell at the aligned bump pointer.
    #[verifier::rlimit(100)]
    fn boot_write_cell(&mut self, item: u32)
        requires
            old(self).wf(),
            old(self)@.mem.len() + 512 <= 0xFFFF_0500,
            here_of(old(self)@.mem) % 4 == 0,
            old(self)@.mem.len() <= here_of(old(self)@.mem) <= old(self)@.mem.len() + 3,
        ensures
            final(self).wf(),
            final(self)@ == (VMView { mem: final(self)@.mem, ..old(self)@ }),
            here_of(final(self)@.mem) == here_of(old(self)@.mem) + 4,
            here_of(final(self)@.mem) % 4 == 0,
            final(self)@.mem.len() == here_of(old(self)@.mem) + 4,
            le32_at(final(self)@.mem, here_of(old(self)@.mem) as int) == item,
            (forall|j: int|
                0 <= j < old(self)@.mem.len() && !(12 <= j < 16)
                    ==> #[trigger] final(self)@.mem[j] == old(self)@.mem[j]),
            (forall|a: int|
                16 <= a && a + 4 <= old(self)@.mem.len() ==> #[trigger] le32_at(
                    final(self)@.mem,
                    a,
                ) == le32_at(old(self)@.mem, a)),
            latest_of(final(self)@.mem) == latest_of(old(self)@.mem),
            base_of(final(self)@.mem) == base_of(old(self)@.mem),
            state_of(final(self)@.mem) == state_of(old(self)@.mem),
    {
        proof {
            lemma_write_cell_shape(old(self)@.mem, item);
        }
        match self.write_u32_here(item) {
            Ok(u) => u,
            Err(e) => {
                proof {
                    assert(false);
                }
                return ;
            },
        };
    }

    /// Lay a colon word's threaded body down at the aligned bump pointer,
    /// one execution token cell at a time.
    #[verifier::rlimit(100)]
    fn boot_write_body(&mut self, def: &Vec<u32>)
        requires
            old(self).wf(),
            old(self)@.mem.len() + 512 <= 0xFFFF_0400,
            def@.len() <= 16,
            here_of(old(self)@.mem) % 4 == 0,
            old(self)@.mem.len() <= here_of(old(self)@.mem) <= old(self)@.mem.len() + 3,
        ensures
            final(self).wf(),
            final(self)@ == (VMView { mem: final(self)@.mem, ..old(self)@ }),
            here_of(final(self)@.mem) == here_of(old(self)@.mem) + 4 * def@.len(),
            here_of(final(self)@.mem) % 4 == 0,
            final(self)@.mem.len() <= here_of(final(self)@.mem) <= final(self)@.mem.len() + 3,
            def@.len() > 0 ==> final(self)@.mem.len() == here_of(final(self)@.mem),
            old(self)@.mem.len() <= final(self)@.mem.len() <= old(self)@.mem.len() + 3 + 4
                * def@.len(),
            (forall|i: int|
                0 <= i < def@.len() ==> le32_at(
                    final(self)@.mem,
                    here_of(old(self)@.mem) + 4 * i,
                ) == def@[i]),
            (forall|j: int|
                16 <= j < old(self)@.mem.len() ==> #[trigger] final(self)@.mem[j]
                    == old(self)@.mem[j]),
            latest_of(final(self)@.mem) == latest_of(old(self)@.mem),
            base_of(final(self)@.mem) == base_of(old(self)@.mem),
            state_of(final(self)@.mem) == state_of(old(self)@.mem),
    {
        let ghost start = self@;
        let ghost h0 = here_of(start.mem);
        let n = def.len();
        let mut i: usize = 0;
        while i < n
            invariant
                self.wf(),
                i <= n,
                n == def@.len(),
                n <= 16,
                self@ == (VMView { mem: self@.mem, ..start }),
                h0 == here_of(start.mem),
                48 <= start.mem.len(),
                start.mem.len() <= h0 <= start.mem.len() + 3,
                start.mem.len() + 512 <= 0xFFFF_0400,
                here_of(self@.mem) == h0 + 4 * i,
                here_of(self@.mem) % 4 == 0,
                self@.mem.len() <= here_of(self@.mem) <= self@.mem.len() + 3,
                i > 0 ==> self@.mem.len() == here_of(self@.mem),
                start.mem.len() <= self@.mem.len() <= start.mem.len() + 3 + 4 * i,
                (forall|k: int| 0 <= k < i ==> le32_at(self@.mem, h0 + 4 * k) == def@[k]),
                (forall|j: int|
                    16 <= j < start.mem.len() ==> #[trigger] self@.mem[j] == start.mem[j]),
                latest_of(self@.mem) == latest_of(start.mem),
                base_of(self@.mem) == base_of(start.mem),
                state_of(self@.mem) == state_of(start.mem),
            decreases n - i,
        {
            let item = def[i];
            let ghost before = self@.mem;
            self.boot_write_cell(item);
            i = i + 1;
            proof {
                assert forall|k: int| 0 <= k < i implies le32_at(self@.mem, h0 + 4 * k)
                    == def@[k] by {
                    if k < i - 1 {
                        assert(le32_at(self@.mem, h0 + 4 * k) == le32_at(before, h0 + 4 * k));
                    }
                }
                assert forall|j: int| 16 <= j < start.mem.len() implies #[trigger] self@.mem[j]
                    == start.mem[j] by {
                    assert(self@.mem[j] == before[j]);
                }
            }
        }
    }

    /// Append a colon word whose code field is the colon-definition opcode
    /// followed, at the next aligned address, by exactly the threaded body
    /// `def`; returns its execution token. Boot only, like
    /// `add_builtin_word`; the new word is then defined, findable and
    /// non-hidden, and every word defined before survives.
    #[verifier::rlimit(100)]
    pub fn add_colon_word(&mut self, word: &str, def: Vec<u32>) -> (xt: u32)
        requires
            old(self).wf(),
            old(self)@.mem.len() + 1024 <= 0xFFFF_0000,
            def@.len() <= 16,
            old(self)@.mem.len() <= here_of(old(self)@.mem) <= old(self)@.mem.len() + 3,
            1 <= ascii_filter(word@).len() <= 31,
            latest_of(old(self)@.mem) == 0 || latest_of(old(self)@.mem) + 4 < old(self)@.mem.len(),
        ensures
            final(self).wf(),
            final(self)@ == (VMView { mem: final(self)@.mem, ..old(self)@ }),
            final(self)@.mem.len() <= here_of(final(self)@.mem) <= final(self)@.mem.len() + 3,
            here_of(final(self)@.mem) % 4 == 0,
            old(self)@.mem.len() <= final(self)@.mem.len() <= old(self)@.mem.len() + 128 + 4
                * def@.len(),
            48 <= xt < final(self)@.mem.len(),
            final(self)@.mem[xt as int] == 0,
            latest_of(final(self)@.mem) + 4 < final(self)@.mem.len(),
            48 <= latest_of(final(self)@.mem),
            latest_of(final(self)@.mem) % 4 == 0,
            old(self)@.mem.len() <= latest_of(final(self)@.mem),
            (forall|i: int|
                0 <= i < def@.len() ==> le32_at(
                    final(self)@.mem,
                    align_up(wadd(xt, 1)) + 4 * i,
                ) == def@[i]),
            here_of(final(self)@.mem) == align_up(wadd(xt, 1)) + 4 * def@.len(),
            def@.len() > 0 ==> final(self)@.mem.len() == here_of(final(self)@.mem),
            dict_word_below(final(self)@.mem, ascii_filter(word@), 0, xt as int + 1),
            word_defined(final(self)@.mem, latest_of(final(self)@.mem), ascii_filter(word@), 0),
            final(self)@.mem[latest_of(final(self)@.mem) + 4] == ascii_filter(word@).len() as u8,
            (forall|nm: Seq<u8>, o: u8, bound: int|
                dict_word_below(old(self)@.mem, nm, o, bound) ==> #[trigger] dict_word_below(
                    final(self)@.mem,
                    nm,
                    o,
                    bound,
                )),
            (forall|nm: Seq<u8>, o: u8, bound: int|
                dict_imm_below(old(self)@.mem, nm, o, bound) ==> #[trigger] dict_imm_below(
                    final(self)@.mem,
                    nm,
                    o,
                    bound,
                )),
            (forall|j: int|
                48 <= j < old(self)@.mem.len() ==> #[trigger] final(self)@.mem[j]
                    == old(self)@.mem[j]),
            base_of(final(self)@.mem) == base_of(old(self)@.mem),
            state_of(final(self)@.mem) == state_of(old(self)@.mem),
    {
        self.boot_create_word(word);
        let ghost m1 = self@.mem;
        let xt = self.boot_begin_body();
        let ghost m2 = self@.mem;
        self.boot_write_body(&def);
        proof {
            let m0 = old(self)@.mem;
            let bs = ascii_filter(word@);
            let h = latest_of(m1);
            assert forall|j: int| 0 <= j < bs.len() implies #[trigger] self@.mem[h + 5 + j]
                == bs[j] by {
                assert(self@.mem[h + 5 + j] == m2[h + 5 + j]);
                assert(m2[h + 5 + j] == m1[h + 5 + j]);
            }
            assert(self@.mem[h + 4] == m2[h + 4] && m2[h + 4] == m1[h + 4]);
            assert(self@.mem[h + 4] == bs.len() as u8);
            assert(self@.mem[xt as int] == m2[xt as int]);
            let nlen = bs.len() as u8;
            assert((nlen & 63) == nlen && (nlen & 32) == 0) by (bit_vector)
                requires
                    nlen <= 31,
            ;
            assert(word_defined(self@.mem, h, bs, 0)) by {
                reveal(word_defined);
            }
            lemma_reachable_self(self@.mem, h);
            assert(dict_word_below(self@.mem, bs, 0, xt as int + 1));
            assert forall|j: int| 48 <= j < m0.len() implies #[trigger] self@.mem[j] == m0[j] by {
                assert(self@.mem[j] == m2[j]);
                assert(m2[j] == m1[j]);
            }
            if latest_of(m0) != 0 {
                assert(le32_at(self@.mem, h as int) == le32_at(m2, h as int)) by {
                    crate::cells::lemma_le32_congruence(self@.mem, m2, h as int);
                }
                assert(le32_at(m2, h as int) == le32_at(m1, h as int)) by {
                    crate::cells::lemma_le32_congruence(m2, m1, h as int);
                }
                lemma_reachable_step(self@.mem, h, latest_of(m0));
            }
            lemma_dict_frame(m0, self@.mem);
        }
        xt
    }


    /// Boot: the literal and copy primitives.
    #[verifier::rlimit(100)]
    fn boot_words_stack_a(&mut self) -> (xts: u32)
        requires
            old(self).wf(),
            old(self)@.mem.len() + 8192 <= 0xFFFF_0000,
            old(self)@.mem.len() <= here_of(old(self)@.mem) <= old(self)@.mem.len() + 3,
            latest_of(old(self)@.mem) == 0 || latest_of(old(self)@.mem) + 4 < old(self)@.mem.len(),
        ensures
            final(self).wf(),
            final(self)@ == (VMView { mem: final(self)@.mem, ..old(self)@ }),
            final(self)@.mem.len() == here_of(final(self)@.mem),
            old(self)@.mem.len() <= final(self)@.mem.len() <= old(self)@.mem.len() + 2048,
            latest_of(final(self)@.mem) + 4 < final(self)@.mem.len(),
            48 <= latest_of(final(self)@.mem),
            dict_word_below(
                final(self)@.mem,
                crate::io::ascii("lit"@),
                OP_LIT,
                final(self)@.mem.len() as int,
            ),
            dict_word_below(
                final(self)@.mem,
                crate::io::ascii("dup"@),
                OP_DUP,
                final(self)@.mem.len() as int,
            ),
            dict_word_below(
                final(self)@.mem,
                crate::io::ascii("drop"@),
                OP_DROP,
                final(self)@.mem.len() as int,
            ),
            (forall|nm: Seq<u8>, o: u8, bound: int|
                bound <= old(self)@.mem.len() && dict_word_below(old(self)@.mem, nm, o, bound)
                    ==> #[trigger] dict_word_below(final(self)@.mem, nm, o, bound)),
            (forall|nm: Seq<u8>, o: u8, bound: int|
                bound <= old(self)@.mem.len() && dict_imm_below(old(self)@.mem, nm, o, bound)
                    ==> #[trigger] dict_imm_below(final(self)@.mem, nm, o, bound)),
            (forall|j: int|
                48 <= j < old(self)@.mem.len() ==> #[trigger] final(self)@.mem[j]
                    == old(self)@.mem[j]),
            base_of(final(self)@.mem) == base_of(old(self)@.mem),
            state_of(final(self)@.mem) == state_of(old(self)@.mem),
            48 <= xts < final(self)@.mem.len(),
            final(self)@.mem[xts as int] == OP_LIT,
    {
        proof {
            reveal_strlit("lit");
            lemma_ascii_name("lit"@);
        }
        let lit = self.add_builtin_word("lit", OP_LIT);
        let ghost b_0: int = self@.mem.len() as int;
        proof {
            assert(ascii_filter("lit"@) =~= crate::io::ascii("lit"@));
        }
        proof {
            reveal_strlit("dup");
            lemma_ascii_name("dup"@);
        }
        let w_dup = self.add_builtin_word("dup", OP_DUP);
        let ghost b_1: int = self@.mem.len() as int;
        proof {
            assert(ascii_filter("dup"@) =~= crate::io::ascii("dup"@));
        }
        proof {
            reveal_strlit("drop");
            lemma_ascii_name("drop"@);
        }
        let w_drop = self.add_builtin_word("drop", OP_DROP);
        let ghost b_2: int = self@.mem.len() as int;
        proof {
            assert(ascii_filter("drop"@) =~= crate::io::ascii("drop"@));
        }
        proof {
            assert(dict_word_below(self@.mem, crate::io::ascii("lit"@), OP_LIT, b_0));
            lemma_below_weaken(self@.mem, crate::io::ascii("lit"@), OP_LIT, b_0, self@.mem.len() as int);
            assert(dict_word_below(self@.mem, crate::io::ascii("dup"@), OP_DUP, b_1));
            lemma_below_weaken(self@.mem, crate::io::ascii("dup"@), OP_DUP, b_1, self@.mem.len() as int);
            assert(dict_word_below(self@.mem, crate::io::ascii("drop"@), OP_DROP, b_2));
            lemma_below_weaken(self@.mem, crate::io::ascii("drop"@), OP_DROP, b_2, self@.mem.len() as int);
        }
        lit
    }

    /// Boot: the shuffling primitives.
    #[verifier::rlimit(100)]
    fn boot_words_stack_b(&mut self) -> (xts: ())
        requires
            old(self).wf(),
            old(self)@.mem.len() + 8192 <= 0xFFFF_0000,
            old(self)@.mem.len() <= here_of(old(self)@.mem) <= old(self)@.mem.len() + 3,
            latest_of(old(self)@.mem) == 0 || latest_of(old(self)@.mem) + 4 < old(self)@.mem.len(),
        ensures
            final(self).wf(),
            final(self)@ == (VMView { mem: final(self)@.mem, ..old(self)@ }),
            final(self)@.mem.len() == here_of(final(self)@.mem),
            old(self)@.mem.len() <= final(self)@.mem.len() <= old(self)@.mem.len() + 2048,
            latest_of(final(self)@.mem) + 4 < final(self)@.mem.len(),
            48 <= latest_of(final(self)@.mem),
            dict_word_below(
                final(self)@.mem,
                crate::io::ascii("swap"@),
                OP_SWAP,
                final(self)@.mem.len() as int,
            ),
            dict_word_below(
                final(self)@.mem,
                crate::io::ascii("depth"@),
                OP_DEPTH,
                final(self)@.mem.len() as int,
            ),
            dict_word_below(
                final(self)@.mem,
                crate::io::ascii(">r"@),
                OP_TO_R,
                final(self)@.mem.len() as int,
            ),
            (forall|nm: Seq<u8>, o: u8, bound: int|
                bound <= old(self)@.mem.len() && dict_word_below(old(self)@.mem, nm, o, bound)
                    ==> #[trigger] dict_word_below(final(self)@.mem, nm, o, bound)),
            (forall|nm: Seq<u8>, o: u8, bound: int|
                bound <= old(self)@.mem.len() && dict_imm_below(old(self)@.mem, nm, o, bound)
                    ==> #[trigger] dict_imm_below(final(self)@.mem, nm, o, bound)),
            (forall|j: int|
                48 <= j < old(self)@.mem.len() ==> #[trigger] final(self)@.mem[j]
                    == old(self)@.mem[j]),
            base_of(final(self)@.mem) == base_of(old(self)@.mem),
            state_of(final(self)@.mem) == state_of(old(self)@.mem),
    {
        proof {
            reveal_strlit("swap");
            lemma_ascii_name("swap"@);
        }
        let w_swap = self.add_builtin_word("swap", OP_SWAP);
        let ghost b_0: int = self@.mem.len() as int;
        proof {
            assert(ascii_filter("swap"@) =~= crate::io::ascii("swap"@));
        }
        proof {
            reveal_strlit("depth");
            lemma_ascii_name("depth"@);
        }
        let w_depth = self.add_builtin_word("depth", OP_DEPTH);
        let ghost b_1: int = self@.mem.len() as int;
        proof {
            assert(ascii_filter("depth"@) =~= crate::io::ascii("depth"@));
        }
        proof {
            reveal_strlit(">r");
            lemma_ascii_name(">r"@);
        }
        let w_tor = self.add_builtin_word(">r", OP_TO_R);
        let ghost b_2: int = self@.mem.len() as int;
        proof {
            assert(ascii_filter(">r"@) =~= crate::io::ascii(">r"@));
        }
        proof {
            assert(dict_word_below(self@.mem, crate::io::ascii("swap"@), OP_SWAP, b_0));
            lemma_below_weaken(self@.mem, crate::io::ascii("swap"@), OP_SWAP, b_0, self@.mem.len() as int);
            assert(dict_word_below(self@.mem, crate::io::ascii("depth"@), OP_DEPTH, b_1));
            lemma_below_weaken(self@.mem, crate::io::ascii("depth"@), OP_DEPTH, b_1, self@.mem.len() as int);
            assert(dict_word_below(self@.mem, crate::io::ascii(">r"@), OP_TO_R, b_2));
            lemma_below_weaken(self@.mem, crate::io::ascii(">r"@), OP_TO_R, b_2, self@.mem.len() as int);
        }
        ()
    }

    /// Boot: the return-stack pop and the fetch primitives.
    #[verifier::rlimit(100)]
    fn boot_words_memory_a(&mut self) -> (xts: u32)
        requires
            old(self).wf(),
            old(self)@.mem.len() + 8192 <= 0xFFFF_0000,
            old(self)@.mem.len() <= here_of(old(self)@.mem) <= old(self)@.mem.len() + 3,
            latest_of(old(self)@.mem) == 0 || latest_of(old(self)@.mem) + 4 < old(self)@.mem.len(),
        ensures
            final(self).wf(),
            final(self)@ == (VMView { mem: final(self)@.mem, ..old(self)@ }),
            final(self)@.mem.len() == here_of(final(self)@.mem),
            old(self)@.mem.len() <= final(self)@.mem.len() <= old(self)@.mem.len() + 2048,
            latest_of(final(self)@.mem) + 4 < final(self)@.mem.len(),
            48 <= latest_of(final(self)@.mem),
            dict_word_below(
                final(self)@.mem,
                crate::io::ascii("r>"@),
                OP_FROM_R,
                final(self)@.mem.len() as int,
            ),
            dict_word_below(
                final(self)@.mem,
                crate::io::ascii("@"@),
                OP_FETCH,
                final(self)@.mem.len() as int,
            ),
            dict_word_below(
                final(self)@.mem,
                crate::io::ascii("c@"@),
                OP_C_FETCH,
                final(self)@.mem.len() as int,
            ),
            (forall|nm: Seq<u8>, o: u8, bound: int|
                bound <= old(self)@.mem.len() && dict_word_below(old(self)@.mem, nm, o, bound)
                    ==> #[trigger] dict_word_below(final(self)@.mem, nm, o, bound)),
            (forall|nm: Seq<u8>, o: u8, bound: int|
                bound <= old(self)@.mem.len() && dict_imm_below(old(self)@.mem, nm, o, bound)
                    ==> #[trigger] dict_imm_below(final(self)@.mem, nm, o, bound)),
            (forall|j: int|
                48 <= j < old(self)@.mem.len() ==> #[trigger] final(self)@.mem[j]
                    == old(self)@.mem[j]),
            base_of(final(self)@.mem) == base_of(old(self)@.mem),
            state_of(final(self)@.mem) == state_of(old(self)@.mem),
            48 <= xts < final(self)@.mem.len(),
            final(self)@.mem[xts as int] == OP_FETCH,
    {
        proof {
            reveal_strlit("r>");
            lemma_ascii_name("r>"@);
        }
        let w_fromr = self.add_builtin_word("r>", OP_FROM_R);
        let ghost b_0: int = self@.mem.len() as int;
        proof {
            assert(ascii_filter("r>"@) =~= crate::io::ascii("r>"@));
        }
        proof {
            reveal_strlit("@");
            lemma_ascii_name("@"@);
        }
        let fetch = self.add_builtin_word("@", OP_FETCH);
        let ghost b_1: int = self@.mem.len() as int;
        proof {
            assert(ascii_filter("@"@) =~= crate::io::ascii("@"@));
        }
        proof {
            reveal_strlit("c@");
            lemma_ascii_name("c@"@);
        }
        let w_cfetch = self.add_builtin_word("c@", OP_C_FETCH);
        let ghost b_2: int = self@.mem.len() as int;
        proof {
            assert(ascii_filter("c@"@) =~= crate::io::ascii("c@"@));
        }
        proof {
            assert(dict_word_below(self@.mem, crate::io::ascii("r>"@), OP_FROM_R, b_0));
            lemma_below_weaken(self@.mem, crate::io::ascii("r>"@), OP_FROM_R, b_0, self@.mem.len() as int);
            assert(dict_word_below(self@.mem, crate::io::ascii("@"@), OP_FETCH, b_1));
            lemma_below_weaken(self@.mem, crate::io::ascii("@"@), OP_FETCH, b_1, self@.mem.len() as int);
            assert(dict_word_below(self@.mem, crate::io::ascii("c@"@), OP_C_FETCH, b_2));
            lemma_below_weaken(self@.mem, crate::io::ascii("c@"@), OP_C_FETCH, b_2, self@.mem.len() as int);
        }
        fetch
    }

    /// Boot: the store and alignment primitives.
    #[verifier::rlimit(100)]
    fn boot_words_memory_b(&mut self) -> (xts: u32)
        requires
            old(self).wf(),
            old(self)@.mem.len() + 8192 <= 0xFFFF_0000,
            old(self)@.mem.len() <= here_of(old(self)@.mem) <= old(self)@.mem.len() + 3,
            latest_of(old(self)@.mem) == 0 || latest_of(old(self)@.mem) + 4 < old(self)@.mem.len(),
        ensures
            final(self).wf(),
            final(self)@ == (VMView { mem: final(self)@.mem, ..old(self)@ }),
            final(self)@.mem.len() == here_of(final(self)@.mem),
            old(self)@.mem.len() <= final(self)@.mem.len() <= old(self)@.mem.len() + 2048,
            latest_of(final(self)@.mem) + 4 < final(self)@.mem.len(),
            48 <= latest_of(final(self)@.mem),
            dict_word_below(
                final(self)@.mem,
                crate::io::ascii("!"@),
                OP_STORE,
                final(self)@.mem.len() as int,
            ),
            dict_word_below(
                final(self)@.mem,
                crate::io::ascii("align"@),
                OP_ALIGN,
                final(self)@.mem.len() as int,
            ),
            dict_word_below(
                final(self)@.mem,
                crate::io::ascii("c!"@),
                OP_C_STORE,
                final(self)@.mem.len() as int,
            ),
            (forall|nm: Seq<u8>, o: u8, bound: int|
                bound <= old(self)@.mem.len() && dict_word_below(old(self)@.mem, nm, o, bound)
                    ==> #[trigger] dict_word_below(final(self)@.mem, nm, o, bound)),
            (forall|nm: Seq<u8>, o: u8, bound: int|
                bound <= old(self)@.mem.len() && dict_imm_below(old(self)@.mem, nm, o, bound)
                    ==> #[trigger] dict_imm_below(final(self)@.mem, nm, o, bound)),
            (forall|j: int|
                48 <= j < old(self)@.mem.len() ==> #[trigger] final(self)@.mem[j]
                    == old(self)@.mem[j]),
            base_of(final(self)@.mem) == base_of(old(self)@.mem),
            state_of(final(self)@.mem) == state_of(old(self)@.mem),
            48 <= xts < final(self)@.mem.len(),
            final(self)@.mem[xts as int] == OP_ALIGN,
    {
        proof {
            reveal_strlit("!");
            lemma_ascii_name("!"@);
        }
        let w_store = self.add_builtin_word("!", OP_STORE);
        let ghost b_0: int = self@.mem.len() as int;
        proof {
            assert(ascii_filter("!"@) =~= crate::io::ascii("!"@));
        }
        proof {
            reveal_strlit("align");
            lemma_ascii_name("align"@);
        }
        let align_xt = self.add_builtin_word("align", OP_ALIGN);
        let ghost b_1: int = self@.mem.len() as int;
        proof {
            assert(ascii_filter("align"@) =~= crate::io::ascii("align"@));
        }
        proof {
            reveal_strlit("c!");
            lemma_ascii_name("c!"@);
        }
        let w_cstore = self.add_builtin_word("c!", OP_C_STORE);
        let ghost b_2: int = self@.mem.len() as int;
        proof {
            assert(ascii_filter("c!"@) =~= crate::io::ascii("c!"@));
        }
        proof {
            assert(dict_word_below(self@.mem, crate::io::ascii("!"@), OP_STORE, b_0));
            lemma_below_weaken(self@.mem, crate::io::ascii("!"@), OP_STORE, b_0, self@.mem.len() as int);
            assert(dict_word_below(self@.mem, crate::io::ascii("align"@), OP_ALIGN, b_1));
            lemma_below_weaken(self@.mem, crate::io::ascii("align"@), OP_ALIGN, b_1, self@.mem.len() as int);
            assert(dict_word_below(self@.mem, crate::io::ascii("c!"@), OP_C_STORE, b_2));
            lemma_below_weaken(self@.mem, crate::io::ascii("c!"@), OP_C_STORE, b_2, self@.mem.len() as int);
        }
        align_xt
    }

    /// Boot: the wrapping arithmetic primitives.
    #[verifier::rlimit(100)]
    fn boot_words_arith_a(&mut self) -> (xts: ())
        requires
            old(self).wf(),
            old(self)@.mem.len() + 8192 <= 0xFFFF_0000,
            old(self)@.mem.len() <= here_of(old(self)@.mem) <= old(self)@.mem.len() + 3,
            latest_of(old(self)@.mem) == 0 || latest_of(old(self)@.mem) + 4 < old(self)@.mem.len(),
        ensures
            final(self).wf(),
            final(self)@ == (VMView { mem: final(self)@.mem, ..old(self)@ }),
            final(self)@.mem.len() == here_of(final(self)@.mem),
            old(self)@.mem.len() <= final(self)@.mem.len() <= old(self)@.mem.len() + 2048,
            latest_of(final(self)@.mem) + 4 < final(self)@.mem.len(),
            48 <= latest_of(final(self)@.mem),
            dict_word_below(
                final(self)@.mem,
                crate::io::ascii("+"@),
                OP_ADD,
                final(self)@.mem.len() as int,
            ),
            dict_word_below(
                final(self)@.mem,
                crate::io::ascii("-"@),
                OP_SUBTRACT,
                final(self)@.mem.len() as int,
            ),
            dict_word_below(
                final(self)@.mem,
                crate::io::ascii("*"@),
                OP_MULTIPLY,
                final(self)@.mem.len() as int,
            ),
            (forall|nm: Seq<u8>, o: u8, bound: int|
                bound <= old(self)@.mem.len() && dict_word_below(old(self)@.mem, nm, o, bound)
                    ==> #[trigger] dict_word_below(final(self)@.mem, nm, o, bound)),
            (forall|nm: Seq<u8>, o: u8, bound: int|
                bound <= old(self)@.mem.len() && dict_imm_below(old(self)@.mem, nm, o, bound)
                    ==> #[trigger] dict_imm_below(final(self)@.mem, nm, o, bound)),
            (forall|j: int|
                48 <= j < old(self)@.mem.len() ==> #[trigger] final(self)@.mem[j]
                    == old(self)@.mem[j]),
            base_of(final(self)@.mem) == base_of(old(self)@.mem),
            state_of(final(self)@.mem) == state_of(old(self)@.mem),
    {
        proof {
            reveal_strlit("+");
            lemma_ascii_name("+"@);
        }
        let w_add = self.add_builtin_word("+", OP_ADD);
        let ghost b_0: int = self@.mem.len() as int;
        proof {
            assert(ascii_filter("+"@) =~= crate::io::ascii("+"@));
        }
        proof {
            reveal_strlit("-");
            lemma_ascii_name("-"@);
        }
        let w_subtract = self.add_builtin_word("-", OP_SUBTRACT);
        let ghost b_1: int = self@.mem.len() as int;
        proof {
            assert(ascii_filter("-"@) =~= crate::io::ascii("-"@));
        }
        proof {
            reveal_strlit("*");
            lemma_ascii_name("*"@);
        }
        let w_multiply = self.add_builtin_word("*", OP_MULTIPLY);
        let ghost b_2: int = self@.mem.len() as int;
        proof {
            assert(ascii_filter("*"@) =~= crate::io::ascii("*"@));
        }
        proof {
            assert(dict_word_below(self@.mem, crate::io::ascii("+"@), OP_ADD, b_0));
            lemma_below_weaken(self@.mem, crate::io::ascii("+"@), OP_ADD, b_0, self@.mem.len() as int);
            assert(dict_word_below(self@.mem, crate::io::ascii("-"@), OP_SUBTRACT, b_1));
            lemma_below_weaken(self@.mem, crate::io::ascii("-"@), OP_SUBTRACT, b_1, self@.mem.len() as int);
            assert(dict_word_below(self@.mem, crate::io::ascii("*"@), OP_MULTIPLY, b_2));
            lemma_below_weaken(self@.mem, crate::io::ascii("*"@), OP_MULTIPLY, b_2, self@.mem.len() as int);
        }
        ()
    }

    /// Boot: division and equality.
    #[verifier::rlimit(100)]
    fn boot_words_arith_b(&mut self) -> (xts: ())
        requires
            old(self).wf(),
            old(self)@.mem.len() + 8192 <= 0xFFFF_0000,
            old(self)@.mem.len() <= here_of(old(self)@.mem) <= old(self)@.mem.len() + 3,
            latest_of(old(self)@.mem) == 0 || latest_of(old(self)@.mem) + 4 < old(self)@.mem.len(),
        ensures
            final(self).wf(),
            final(self)@ == (VMView { mem: final(self)@.mem, ..old(self)@ }),
            final(self)@.mem.len() == here_of(final(self)@.mem),
            old(self)@.mem.len() <= final(self)@.mem.len() <= old(self)@.mem.len() + 2048,
            latest_of(final(self)@.mem) + 4 < final(self)@.mem.len(),
            48 <= latest_of(final(self)@.mem),
            dict_word_below(
                final(self)@.mem,
                crate::io::ascii("/mod"@),
                OP_DIV_MOD,
                final(self)@.mem.len() as int,
            ),
            dict_word_below(
                final(self)@.mem,
                crate::io::ascii("="@),
                OP_EQUALS,
                final(self)@.mem.len() as int,
            ),
            dict_word_below(
                final(self)@.mem,
                crate::io::ascii("<"@),
                OP_LESS_THAN,
                final(self)@.mem.len() as int,
            ),
            (forall|nm: Seq<u8>, o: u8, bound: int|
                bound <= old(self)@.mem.len() && dict_word_below(old(self)@.mem, nm, o, bound)
                    ==> #[trigger] dict_word_below(final(self)@.mem, nm, o, bound)),
            (forall|nm: Seq<u8>, o: u8, bound: int|
                bound <= old(self)@.mem.len() && dict_imm_below(old(self)@.mem, nm, o, bound)
                    ==> #[trigger] dict_imm_below(final(self)@.mem, nm, o, bound)),
            (forall|j: int|
                48 <= j < old(self)@.mem.len() ==> #[trigger] final(self)@.mem[j]
                    == old(self)@.mem[j]),
            base_of(final(self)@.mem) == base_of(old(self)@.mem),
            state_of(final(self)@.mem) == state_of(old(self)@.mem),
    {
        proof {
            reveal_strlit("/mod");
            lemma_ascii_name("/mod"@);
        }
        let w_divmod = self.add_builtin_word("/mod", OP_DIV_MOD);
        let ghost b_0: int = self@.mem.len() as int;
        proof {
            assert(ascii_filter("/mod"@) =~= crate::io::ascii("/mod"@));
        }
        proof {
            reveal_strlit("=");
            lemma_ascii_name("="@);
        }
        let w_equals = self.add_builtin_word("=", OP_EQUALS);
        let ghost b_1: int = self@.mem.len() as int;
        proof {
            assert(ascii_filter("="@) =~= crate::io::ascii("="@));
        }
        proof {
            reveal_strlit("<");
            lemma_ascii_name("<"@);
        }
        let w_lt = self.add_builtin_word("<", OP_LESS_THAN);
        let ghost b_2: int = self@.mem.len() as int;
        proof {
            assert(ascii_filter("<"@) =~= crate::io::ascii("<"@));
        }
        proof {
            assert(dict_word_below(self@.mem, crate::io::ascii("/mod"@), OP_DIV_MOD, b_0));
            lemma_below_weaken(self@.mem, crate::io::ascii("/mod"@), OP_DIV_MOD, b_0, self@.mem.len() as int);
            assert(dict_word_below(self@.mem, crate::io::ascii("="@), OP_EQUALS, b_1));
            lemma_below_weaken(self@.mem, crate::io::ascii("="@), OP_EQUALS, b_1, self@.mem.len() as int);
            assert(dict_word_below(self@.mem, crate::io::ascii("<"@), OP_LESS_THAN, b_2));
            lemma_below_weaken(self@.mem, crate::io::ascii("<"@), OP_LESS_THAN, b_2, self@.mem.len() as int);
        }
        ()
    }

    /// Boot: the comparison and logic primitives.
    #[verifier::rlimit(100)]
    fn boot_words_logic(&mut self) -> (xts: ())
        requires
            old(self).wf(),
            old(self)@.mem.len() + 8192 <= 0xFFFF_0000,
            old(self)@.mem.len() <= here_of(old(self)@.mem) <= old(self)@.mem.len() + 3,
            latest_of(old(self)@.mem) == 0 || latest_of(old(self)@.mem) + 4 < old(self)@.mem.len(),
        ensures
            final(self).wf(),
            final(self)@ == (VMView { mem: final(self)@.mem, ..old(self)@ }),
            final(self)@.mem.len() == here_of(final(self)@.mem),
            old(self)@.mem.len() <= final(self)@.mem.len() <= old(self)@.mem.len() + 2048,
            latest_of(final(self)@.mem) + 4 < final(self)@.mem.len(),
            48 <= latest_of(final(self)@.mem),
            dict_word_below(
                final(self)@.mem,
                crate::io::ascii(">"@),
                OP_GREATER_THAN,
                final(self)@.mem.len() as int,
            ),
            dict_word_below(
                final(self)@.mem,
                crate::io::ascii("and"@),
                OP_AND,
                final(self)@.mem.len() as int,
            ),
            dict_word_below(
                final(self)@.mem,
                crate::io::ascii("or"@),
                OP_OR,
                final(self)@.mem.len() as int,
            ),
            dict_word_below(
                final(self)@.mem,
                crate::io::ascii("xor"@),
                OP_XOR,
                final(self)@.mem.len() as int,
            ),
            dict_word_below(
                final(self)@.mem,
                crate::io::ascii("invert"@),
                OP_INVERT,
                final(self)@.mem.len() as int,
            ),
            (forall|nm: Seq<u8>, o: u8, bound: int|
                bound <= old(self)@.mem.len() && dict_word_below(old(self)@.mem, nm, o, bound)
                    ==> #[trigger] dict_word_below(final(self)@.mem, nm, o, bound)),
            (forall|nm: Seq<u8>, o: u8, bound: int|
                bound <= old(self)@.mem.len() && dict_imm_below(old(self)@.mem, nm, o, bound)
                    ==> #[trigger] dict_imm_below(final(self)@.mem, nm, o, bound)),
            (forall|j: int|
                48 <= j < old(self)@.mem.len() ==> #[trigger] final(self)@.mem[j]
                    == old(self)@.mem[j]),
            base_of(final(self)@.mem) == base_of(old(self)@.mem),
            state_of(final(self)@.mem) == state_of(old(self)@.mem),
    {
        proof {
            reveal_strlit(">");
            lemma_ascii_name(">"@);
        }
        let w_gt = self.add_builtin_word(">", OP_GREATER_THAN);
        let ghost b_0: int = self@.mem.len() as int;
        proof {
            assert(ascii_filter(">"@) =~= crate::io::ascii(">"@));
        }
        proof {
            reveal_strlit("and");
            lemma_ascii_name("and"@);
        }
        let w_and = self.add_builtin_word("and", OP_AND);
        let ghost b_1: int = self@.mem.len() as int;
        proof {
            assert(ascii_filter("and"@) =~= crate::io::ascii("and"@));
        }
        proof {
            reveal_strlit("or");
            lemma_ascii_name("or"@);
        }
        let w_or = self.add_builtin_word("or", OP_OR);
        let ghost b_2: int = self@.mem.len() as int;
        proof {
            assert(ascii_filter("or"@) =~= crate::io::ascii("or"@));
        }
        proof {
            reveal_strlit("xor");
            lemma_ascii_name("xor"@);
        }
        let w_xor = self.add_builtin_word("xor", OP_XOR);
        let ghost b_3: int = self@.mem.len() as int;
        proof {
            assert(ascii_filter("xor"@) =~= crate::io::ascii("xor"@));
        }
        proof {
            reveal_strlit("invert");
            lemma_ascii_name("invert"@);
        }
        let w_invert = self.add_builtin_word("invert", OP_INVERT);
        let ghost b_4: int = self@.mem.len() as int;
        proof {
            assert(ascii_filter("invert"@) =~= crate::io::ascii("invert"@));
        }
        proof {
            assert(dict_word_below(self@.mem, crate::io::ascii(">"@), OP_GREATER_THAN, b_0));
            lemma_below_weaken(self@.mem, crate::io::ascii(">"@), OP_GREATER_THAN, b_0, self@.mem.len() as int);
            assert(dict_word_below(self@.mem, crate::io::ascii("and"@), OP_AND, b_1));
            lemma_below_weaken(self@.mem, crate::io::ascii("and"@), OP_AND, b_1, self@.mem.len() as int);
            assert(dict_word_below(self@.mem, crate::io::ascii("or"@), OP_OR, b_2));
            lemma_below_weaken(self@.mem, crate::io::ascii("or"@), OP_OR, b_2, self@.mem.len() as int);
            assert(dict_word_below(self@.mem, crate::io::ascii("xor"@), OP_XOR, b_3));
            lemma_below_weaken(self@.mem, crate::io::ascii("xor"@), OP_XOR, b_3, self@.mem.len() as int);
            assert(dict_word_below(self@.mem, crate::io::ascii("invert"@), OP_INVERT, b_4));
            lemma_below_weaken(self@.mem, crate::io::ascii("invert"@), OP_INVERT, b_4, self@.mem.len() as int);
        }
        ()
    }

    /// Boot: the byte and token input primitives.
    #[verifier::rlimit(100)]
    fn boot_words_input_a(&mut self) -> (xts: u32)
        requires
            old(self).wf(),
            old(self)@.mem.len() + 8192 <= 0xFFFF_0000,
            old(self)@.mem.len() <= here_of(old(self)@.mem) <= old(self)@.mem.len() + 3,
            latest_of(old(self)@.mem) == 0 || latest_of(old(self)@.mem) + 4 < old(self)@.mem.len(),
        ensures
            final(self).wf(),
            final(self)@ == (VMView { mem: final(self)@.mem, ..old(self)@ }),
            final(self)@.mem.len() == here_of(final(self)@.mem),
            old(self)@.mem.len() <= final(self)@.mem.len() <= old(self)@.mem.len() + 2048,
            latest_of(final(self)@.mem) + 4 < final(self)@.mem.len(),
            48 <= latest_of(final(self)@.mem),
            dict_word_below(
                final(self)@.mem,
                crate::io::ascii("key"@),
                OP_KEY,
                final(self)@.mem.len() as int,
            ),
            dict_word_below(
                final(self)@.mem,
                crate::io::ascii("word"@),
                OP_WORD,
                final(self)@.mem.len() as int,
            ),
            dict_word_below(
                final(self)@.mem,
                crate::io::ascii("emit"@),
                OP_EMIT,
                final(self)@.mem.len() as int,
            ),
            (forall|nm: Seq<u8>, o: u8, bound: int|
                bound <= old(self)@.mem.len() && dict_word_below(old(self)@.mem, nm, o, bound)
                    ==> #[trigger] dict_word_below(final(self)@.mem, nm, o, bound)),
            (forall|nm: Seq<u8>, o: u8, bound: int|
                bound <= old(self)@.mem.len() && dict_imm_below(old(self)@.mem, nm, o, bound)
                    ==> #[trigger] dict_imm_below(final(self)@.mem, nm, o, bound)),
            (forall|j: int|
                48 <= j < old(self)@.mem.len() ==> #[trigger] final(self)@.mem[j]
                    == old(self)@.mem[j]),
            base_of(final(self)@.mem) == base_of(old(self)@.mem),
            state_of(final(self)@.mem) == state_of(old(self)@.mem),
            48 <= xts < final(self)@.mem.len(),
            final(self)@.mem[xts as int] == OP_WORD,
    {
        proof {
            reveal_strlit("key");
            lemma_ascii_name("key"@);
        }
        let w_key = self.add_builtin_word("key", OP_KEY);
        let ghost b_0: int = self@.mem.len() as int;
        proof {
            assert(ascii_filter("key"@) =~= crate::io::ascii("key"@));
        }
        proof {
            reveal_strlit("word");
            lemma_ascii_name("word"@);
        }
        let word_xt = self.add_builtin_word("word", OP_WORD);
        let ghost b_1: int = self@.mem.len() as int;
        proof {
            assert(ascii_filter("word"@) =~= crate::io::ascii("word"@));
        }
        proof {
            reveal_strlit("emit");
            lemma_ascii_name("emit"@);
        }
        let w_emit = self.add_builtin_word("emit", OP_EMIT);
        let ghost b_2: int = self@.mem.len() as int;
        proof {
            assert(ascii_filter("emit"@) =~= crate::io::ascii("emit"@));
        }
        proof {
            assert(dict_word_below(self@.mem, crate::io::ascii("key"@), OP_KEY, b_0));
            lemma_below_weaken(self@.mem, crate::io::ascii("key"@), OP_KEY, b_0, self@.mem.len() as int);
            assert(dict_word_below(self@.mem, crate::io::ascii("word"@), OP_WORD, b_1));
            lemma_below_weaken(self@.mem, crate::io::ascii("word"@), OP_WORD, b_1, self@.mem.len() as int);
            assert(dict_word_below(self@.mem, crate::io::ascii("emit"@), OP_EMIT, b_2));
            lemma_below_weaken(self@.mem, crate::io::ascii("emit"@), OP_EMIT, b_2, self@.mem.len() as int);
        }
        word_xt
    }

    /// Boot: the lookup and number primitives.
    #[verifier::rlimit(100)]
    fn boot_words_input_b(&mut self) -> (xts: ())
        requires
            old(self).wf(),
            old(self)@.mem.len() + 8192 <= 0xFFFF_0000,
            old(self)@.mem.len() <= here_of(old(self)@.mem) <= old(self)@.mem.len() + 3,
            latest_of(old(self)@.mem) == 0 || latest_of(old(self)@.mem) + 4 < old(self)@.mem.len(),
        ensures
            final(self).wf(),
            final(self)@ == (VMView { mem: final(self)@.mem, ..old(self)@ }),
            final(self)@.mem.len() == here_of(final(self)@.mem),
            old(self)@.mem.len() <= final(self)@.mem.len() <= old(self)@.mem.len() + 2048,
            latest_of(final(self)@.mem) + 4 < final(self)@.mem.len(),
            48 <= latest_of(final(self)@.mem),
            dict_word_below(
                final(self)@.mem,
                crate::io::ascii("find"@),
                OP_FIND,
                final(self)@.mem.len() as int,
            ),
            dict_word_below(
                final(self)@.mem,
                crate::io::ascii("number"@),
                OP_NUMBER,
                final(self)@.mem.len() as int,
            ),
            dict_word_below(
                final(self)@.mem,
                crate::io::ascii(">cfa"@),
                OP_TO_CFA,
                final(self)@.mem.len() as int,
            ),
            (forall|nm: Seq<u8>, o: u8, bound: int|
                bound <= old(self)@.mem.len() && dict_word_below(old(self)@.mem, nm, o, bound)
                    ==> #[trigger] dict_word_below(final(self)@.mem, nm, o, bound)),
            (forall|nm: Seq<u8>, o: u8, bound: int|
                bound <= old(self)@.mem.len() && dict_imm_below(old(self)@.mem, nm, o, bound)
                    ==> #[trigger] dict_imm_below(final(self)@.mem, nm, o, bound)),
            (forall|j: int|
                48 <= j < old(self)@.mem.len() ==> #[trigger] final(self)@.mem[j]
                    == old(self)@.mem[j]),
            base_of(final(self)@.mem) == base_of(old(self)@.mem),
            state_of(final(self)@.mem) == state_of(old(self)@.mem),
    {
        proof {
            reveal_strlit("find");
            lemma_ascii_name("find"@);
        }
        let w_find = self.add_builtin_word("find", OP_FIND);
        let ghost b_0: int = self@.mem.len() as int;
        proof {
            assert(ascii_filter("find"@) =~= crate::io::ascii("find"@));
        }
        proof {
            reveal_strlit("number");
            lemma_ascii_name("number"@);
        }
        let w_number = self.add_builtin_word("number", OP_NUMBER);
        let ghost b_1: int = self@.mem.len() as int;
        proof {
            assert(ascii_filter("number"@) =~= crate::io::ascii("number"@));
        }
        proof {
            reveal_strlit(">cfa");
            lemma_ascii_name(">cfa"@);
        }
        let w_tocfa = self.add_builtin_word(">cfa", OP_TO_CFA);
        let ghost b_2: int = self@.mem.len() as int;
        proof {
            assert(ascii_filter(">cfa"@) =~= crate::io::ascii(">cfa"@));
        }
        proof {
            assert(dict_word_below(self@.mem, crate::io::ascii("find"@), OP_FIND, b_0));
            lemma_below_weaken(self@.mem, crate::io::ascii("find"@), OP_FIND, b_0, self@.mem.len() as int);
            assert(dict_word_below(self@.mem, crate::io::ascii("number"@), OP_NUMBER, b_1));
            lemma_below_weaken(self@.mem, crate::io::ascii("number"@), OP_NUMBER, b_1, self@.mem.len() as int);
            assert(dict_word_below(self@.mem, crate::io::ascii(">cfa"@), OP_TO_CFA, b_2));
            lemma_below_weaken(self@.mem, crate::io::ascii(">cfa"@), OP_TO_CFA, b_2, self@.mem.len() as int);
        }
        ()
    }

    /// Boot: the mode and compiling primitives.
    #[verifier::rlimit(100)]
    fn boot_words_compile(&mut self) -> (xts: (u32, u32, u32, u32, u32))
        requires
            old(self).wf(),
            old(self)@.mem.len() + 8192 <= 0xFFFF_0000,
            old(self)@.mem.len() <= here_of(old(self)@.mem) <= old(self)@.mem.len() + 3,
            latest_of(old(self)@.mem) == 0 || latest_of(old(self)@.mem) + 4 < old(self)@.mem.len(),
        ensures
            final(self).wf(),
            final(self)@ == (VMView { mem: final(self)@.mem, ..old(self)@ }),
            final(self)@.mem.len() == here_of(final(self)@.mem),
            old(self)@.mem.len() <= final(self)@.mem.len() <= old(self)@.mem.len() + 2048,
            latest_of(final(self)@.mem) + 4 < final(self)@.mem.len(),
            48 <= latest_of(final(self)@.mem),
            dict_word_below(
                final(self)@.mem,
                crate::io::ascii("["@),
                OP_L_BRACKET,
                final(self)@.mem.len() as int,
            ),
            dict_word_below(
                final(self)@.mem,
                crate::io::ascii("]"@),
                OP_R_BRACKET,
                final(self)@.mem.len() as int,
            ),
            dict_word_below(
                final(self)@.mem,
                crate::io::ascii("create"@),
                OP_CREATE,
                final(self)@.mem.len() as int,
            ),
            dict_word_below(
                final(self)@.mem,
                crate::io::ascii(","@),
                OP_COMMA,
                final(self)@.mem.len() as int,
            ),
            dict_word_below(
                final(self)@.mem,
                crate::io::ascii("c,"@),
                OP_C_COMMA,
                final(self)@.mem.len() as int,
            ),
            (forall|nm: Seq<u8>, o: u8, bound: int|
                bound <= old(self)@.mem.len() && dict_word_below(old(self)@.mem, nm, o, bound)
                    ==> #[trigger] dict_word_below(final(self)@.mem, nm, o, bound)),
            (forall|nm: Seq<u8>, o: u8, bound: int|
                bound <= old(self)@.mem.len() && dict_imm_below(old(self)@.mem, nm, o, bound)
                    ==> #[trigger] dict_imm_below(final(self)@.mem, nm, o, bound)),
            (forall|j: int|
                48 <= j < old(self)@.mem.len() ==> #[trigger] final(self)@.mem[j]
                    == old(self)@.mem[j]),
            base_of(final(self)@.mem) == base_of(old(self)@.mem),
            state_of(final(self)@.mem) == state_of(old(self)@.mem),
            48 <= xts.0 < final(self)@.mem.len(),
            final(self)@.mem[xts.0 as int] == OP_L_BRACKET,
            48 <= xts.1 < final(self)@.mem.len(),
            final(self)@.mem[xts.1 as int] == OP_R_BRACKET,
            48 <= xts.2 < final(self)@.mem.len(),
            final(self)@.mem[xts.2 as int] == OP_CREATE,
            48 <= xts.3 < final(self)@.mem.len(),
            final(self)@.mem[xts.3 as int] == OP_COMMA,
            48 <= xts.4 < final(self)@.mem.len(),
            final(self)@.mem[xts.4 as int] == OP_C_COMMA,
    {
        proof {
            reveal_strlit("[");
            lemma_ascii_name("["@);
        }
        let lbracket = self.add_builtin_word("[", OP_L_BRACKET);
        let ghost b_0: int = self@.mem.len() as int;
        proof {
            assert(ascii_filter("["@) =~= crate::io::ascii("["@));
        }
        proof {
            reveal_strlit("]");
            lemma_ascii_name("]"@);
        }
        let rbracket = self.add_builtin_word("]", OP_R_BRACKET);
        let ghost b_1: int = self@.mem.len() as int;
        proof {
            assert(ascii_filter("]"@) =~= crate::io::ascii("]"@));
        }
        proof {
            reveal_strlit("create");
            lemma_ascii_name("create"@);
        }
        let create_xt = self.add_builtin_word("create", OP_CREATE);
        let ghost b_2: int = self@.mem.len() as int;
        proof {
            assert(ascii_filter("create"@) =~= crate::io::ascii("create"@));
        }
        proof {
            reveal_strlit(",");
            lemma_ascii_name(","@);
        }
        let comma = self.add_builtin_word(",", OP_COMMA);
        let ghost b_3: int = self@.mem.len() as int;
        proof {
            assert(ascii_filter(","@) =~= crate::io::ascii(","@));
        }
        proof {
            reveal_strlit("c,");
            lemma_ascii_name("c,"@);
        }
        let ccomma = self.add_builtin_word("c,", OP_C_COMMA);
        let ghost b_4: int = self@.mem.len() as int;
        proof {
            assert(ascii_filter("c,"@) =~= crate::io::ascii("c,"@));
        }
        proof {
            assert(dict_word_below(self@.mem, crate::io::ascii("["@), OP_L_BRACKET, b_0));
            lemma_below_weaken(self@.mem, crate::io::ascii("["@), OP_L_BRACKET, b_0, self@.mem.len() as int);
            assert(dict_word_below(self@.mem, crate::io::ascii("]"@), OP_R_BRACKET, b_1));
            lemma_below_weaken(self@.mem, crate::io::ascii("]"@), OP_R_BRACKET, b_1, self@.mem.len() as int);
            assert(dict_word_below(self@.mem, crate::io::ascii("create"@), OP_CREATE, b_2));
            lemma_below_weaken(self@.mem, crate::io::ascii("create"@), OP_CREATE, b_2, self@.mem.len() as int);
            assert(dict_word_below(self@.mem, crate::io::ascii(","@), OP_COMMA, b_3));
            lemma_below_weaken(self@.mem, crate::io::ascii(","@), OP_COMMA, b_3, self@.mem.len() as int);
            assert(dict_word_below(self@.mem, crate::io::ascii("c,"@), OP_C_COMMA, b_4));
            lemma_below_weaken(self@.mem, crate::io::ascii("c,"@), OP_C_COMMA, b_4, self@.mem.len() as int);
        }
        (lbracket, rbracket, create_xt, comma, ccomma)
    }

    /// Boot: the header-flag primitives; `immediate` is itself made immediate.
    #[verifier::rlimit(100)]
    fn boot_words_flags_a(&mut self) -> (xts: u32)
        requires
            old(self).wf(),
            old(self)@.mem.len() + 8192 <= 0xFFFF_0000,
            old(self)@.mem.len() <= here_of(old(self)@.mem) <= old(self)@.mem.len() + 3,
            latest_of(old(self)@.mem) == 0 || latest_of(old(self)@.mem) + 4 < old(self)@.mem.len(),
        ensures
            final(self).wf(),
            final(self)@ == (VMView { mem: final(self)@.mem, ..old(self)@ }),
            final(self)@.mem.len() == here_of(final(self)@.mem),
            old(self)@.mem.len() <= final(self)@.mem.len() <= old(self)@.mem.len() + 2048,
            latest_of(final(self)@.mem) + 4 < final(self)@.mem.len(),
            48 <= latest_of(final(self)@.mem),
            dict_word_below(
                final(self)@.mem,
                crate::io::ascii("immediate"@),
                OP_IMMEDIATE,
                final(self)@.mem.len() as int,
            ),
            dict_word_below(
                final(self)@.mem,
                crate::io::ascii("hidden"@),
                OP_HIDDEN,
                final(self)@.mem.len() as int,
            ),
            dict_imm_below(
                final(self)@.mem,
                crate::io::ascii("immediate"@),
                OP_IMMEDIATE,
                final(self)@.mem.len() as int,
            ),
            (forall|nm: Seq<u8>, o: u8, bound: int|
                bound <= old(self)@.mem.len() && dict_word_below(old(self)@.mem, nm, o, bound)
                    ==> #[trigger] dict_word_below(final(self)@.mem, nm, o, bound)),
            (forall|nm: Seq<u8>, o: u8, bound: int|
                bound <= old(self)@.mem.len() && dict_imm_below(old(self)@.mem, nm, o, bound)
                    ==> #[trigger] dict_imm_below(final(self)@.mem, nm, o, bound)),
            (forall|j: int|
                48 <= j < old(self)@.mem.len() ==> #[trigger] final(self)@.mem[j]
                    == old(self)@.mem[j]),
            base_of(final(self)@.mem) == base_of(old(self)@.mem),
            state_of(final(self)@.mem) == state_of(old(self)@.mem),
            48 <= xts < final(self)@.mem.len(),
            final(self)@.mem[xts as int] == OP_HIDDEN,
    {
        proof {
            reveal_strlit("immediate");
            lemma_ascii_name("immediate"@);
        }
        let w_immediate = self.add_builtin_word("immediate", OP_IMMEDIATE);
        let ghost b_0: int = self@.mem.len() as int;
        proof {
            assert(ascii_filter("immediate"@) =~= crate::io::ascii("immediate"@));
        }
        let ghost pre_toggle = self@.mem;
        match self.immediate() {
            Ok(u) => u,
            Err(e) => {
                proof {
                    assert(false);
                }
                return 0;
            },
        };
        proof {
            let lat = latest_of(pre_toggle);
            let nl = ascii_filter("immediate"@).len() as u8;
            assert(pre_toggle[lat + 4] == nl);
            assert(nl <= 31 ==> (nl & 64) == 0) by (bit_vector);
            lemma_dict_toggle(pre_toggle, lat);
            assert(dict_word_below(self@.mem, ascii_filter("immediate"@), OP_IMMEDIATE, b_0));
            assert(dict_imm_below(self@.mem, ascii_filter("immediate"@), OP_IMMEDIATE, b_0));
        }
        proof {
            reveal_strlit("hidden");
            lemma_ascii_name("hidden"@);
        }
        let hidden_xt = self.add_builtin_word("hidden", OP_HIDDEN);
        let ghost b_1: int = self@.mem.len() as int;
        proof {
            assert(ascii_filter("hidden"@) =~= crate::io::ascii("hidden"@));
        }
        proof {
            assert(dict_word_below(self@.mem, crate::io::ascii("immediate"@), OP_IMMEDIATE, b_0));
            lemma_below_weaken(self@.mem, crate::io::ascii("immediate"@), OP_IMMEDIATE, b_0, self@.mem.len() as int);
            assert(dict_word_below(self@.mem, crate::io::ascii("hidden"@), OP_HIDDEN, b_1));
            lemma_below_weaken(self@.mem, crate::io::ascii("hidden"@), OP_HIDDEN, b_1, self@.mem.len() as int);
            assert(dict_imm_below(self@.mem, crate::io::ascii("immediate"@), OP_IMMEDIATE, b_0));
            lemma_imm_weaken(self@.mem, crate::io::ascii("immediate"@), OP_IMMEDIATE, b_0, self@.mem.len() as int);
        }
        hidden_xt
    }

    /// Boot: the dispatch and branch primitives.
    #[verifier::rlimit(100)]
    fn boot_words_flags_b(&mut self) -> (xts: u32)
        requires
            old(self).wf(),
            old(self)@.mem.len() + 8192 <= 0xFFFF_0000,
            old(self)@.mem.len() <= here_of(old(self)@.mem) <= old(self)@.mem.len() + 3,
            latest_of(old(self)@.mem) == 0 || latest_of(old(self)@.mem) + 4 < old(self)@.mem.len(),
        ensures
            final(self).wf(),
            final(self)@ == (VMView { mem: final(self)@.mem, ..old(self)@ }),
            final(self)@.mem.len() == here_of(final(self)@.mem),
            old(self)@.mem.len() <= final(self)@.mem.len() <= old(self)@.mem.len() + 2048,
            latest_of(final(self)@.mem) + 4 < final(self)@.mem.len(),
            48 <= latest_of(final(self)@.mem),
            dict_word_below(
                final(self)@.mem,
                crate::io::ascii("execute"@),
                OP_EXECUTE,
                final(self)@.mem.len() as int,
            ),
            dict_word_below(
                final(self)@.mem,
                crate::io::ascii("branch"@),
                OP_BRANCH,
                final(self)@.mem.len() as int,
            ),
            dict_word_below(
                final(self)@.mem,
                crate::io::ascii("0branch"@),
                OP_BRANCH_IF_ZERO,
                final(self)@.mem.len() as int,
            ),
            (forall|nm: Seq<u8>, o: u8, bound: int|
                bound <= old(self)@.mem.len() && dict_word_below(old(self)@.mem, nm, o, bound)
                    ==> #[trigger] dict_word_below(final(self)@.mem, nm, o, bound)),
            (forall|nm: Seq<u8>, o: u8, bound: int|
                bound <= old(self)@.mem.len() && dict_imm_below(old(self)@.mem, nm, o, bound)
                    ==> #[trigger] dict_imm_below(final(self)@.mem, nm, o, bound)),
            (forall|j: int|
                48 <= j < old(self)@.mem.len() ==> #[trigger] final(self)@.mem[j]
                    == old(self)@.mem[j]),
            base_of(final(self)@.mem) == base_of(old(self)@.mem),
            state_of(final(self)@.mem) == state_of(old(self)@.mem),
            48 <= xts < final(self)@.mem.len(),
            final(self)@.mem[xts as int] == OP_BRANCH,
    {
        proof {
            reveal_strlit("execute");
            lemma_ascii_name("execute"@);
        }
        let w_execute = self.add_builtin_word("execute", OP_EXECUTE);
        let ghost b_0: int = self@.mem.len() as int;
        proof {
            assert(ascii_filter("execute"@) =~= crate::io::ascii("execute"@));
        }
        proof {
            reveal_strlit("branch");
            lemma_ascii_name("branch"@);
        }
        let branch_xt = self.add_builtin_word("branch", OP_BRANCH);
        let ghost b_1: int = self@.mem.len() as int;
        proof {
            assert(ascii_filter("branch"@) =~= crate::io::ascii("branch"@));
        }
        proof {
            reveal_strlit("0branch");
            lemma_ascii_name("0branch"@);
        }
        let w_branchif0 = self.add_builtin_word("0branch", OP_BRANCH_IF_ZERO);
        let ghost b_2: int = self@.mem.len() as int;
        proof {
            assert(ascii_filter("0branch"@) =~= crate::io::ascii("0branch"@));
        }
        proof {
            assert(dict_word_below(self@.mem, crate::io::ascii("execute"@), OP_EXECUTE, b_0));
            lemma_below_weaken(self@.mem, crate::io::ascii("execute"@), OP_EXECUTE, b_0, self@.mem.len() as int);
            assert(dict_word_below(self@.mem, crate::io::ascii("branch"@), OP_BRANCH, b_1));
            lemma_below_weaken(self@.mem, crate::io::ascii("branch"@), OP_BRANCH, b_1, self@.mem.len() as int);
            assert(dict_word_below(self@.mem, crate::io::ascii("0branch"@), OP_BRANCH_IF_ZERO, b_2));
            lemma_below_weaken(self@.mem, crate::io::ascii("0branch"@), OP_BRANCH_IF_ZERO, b_2, self@.mem.len() as int);
        }
        branch_xt
    }

    /// Boot: the return and driver primitives.
    #[verifier::rlimit(100)]
    fn boot_words_driver_a(&mut self) -> (xts: (u32, u32, u32))
        requires
            old(self).wf(),
            old(self)@.mem.len() + 8192 <= 0xFFFF_0000,
            old(self)@.mem.len() <= here_of(old(self)@.mem) <= old(self)@.mem.len() + 3,
            latest_of(old(self)@.mem) == 0 || latest_of(old(self)@.mem) + 4 < old(self)@.mem.len(),
        ensures
            final(self).wf(),
            final(self)@ == (VMView { mem: final(self)@.mem, ..old(self)@ }),
            final(self)@.mem.len() == here_of(final(self)@.mem),
            old(self)@.mem.len() <= final(self)@.mem.len() <= old(self)@.mem.len() + 2048,
            latest_of(final(self)@.mem) + 4 < final(self)@.mem.len(),
            48 <= latest_of(final(self)@.mem),
            dict_word_below(
                final(self)@.mem,
                crate::io::ascii("exit"@),
                OP_EXIT,
                final(self)@.mem.len() as int,
            ),
            dict_word_below(
                final(self)@.mem,
                crate::io::ascii("reset"@),
                OP_RESET,
                final(self)@.mem.len() as int,
            ),
            dict_word_below(
                final(self)@.mem,
                crate::io::ascii("prompt"@),
                OP_PROMPT,
                final(self)@.mem.len() as int,
            ),
            (forall|nm: Seq<u8>, o: u8, bound: int|
                bound <= old(self)@.mem.len() && dict_word_below(old(self)@.mem, nm, o, bound)
                    ==> #[trigger] dict_word_below(final(self)@.mem, nm, o, bound)),
            (forall|nm: Seq<u8>, o: u8, bound: int|
                bound <= old(self)@.mem.len() && dict_imm_below(old(self)@.mem, nm, o, bound)
                    ==> #[trigger] dict_imm_below(final(self)@.mem, nm, o, bound)),
            (forall|j: int|
                48 <= j < old(self)@.mem.len() ==> #[trigger] final(self)@.mem[j]
                    == old(self)@.mem[j]),
            base_of(final(self)@.mem) == base_of(old(self)@.mem),
            state_of(final(self)@.mem) == state_of(old(self)@.mem),
            48 <= xts.0 < final(self)@.mem.len(),
            final(self)@.mem[xts.0 as int] == OP_EXIT,
            48 <= xts.1 < final(self)@.mem.len(),
            final(self)@.mem[xts.1 as int] == OP_RESET,
            48 <= xts.2 < final(self)@.mem.len(),
            final(self)@.mem[xts.2 as int] == OP_PROMPT,
    {
        proof {
            reveal_strlit("exit");
            lemma_ascii_name("exit"@);
        }
        let exit_xt = self.add_builtin_word("exit", OP_EXIT);
        let ghost b_0: int = self@.mem.len() as int;
        proof {
            assert(ascii_filter("exit"@) =~= crate::io::ascii("exit"@));
        }
        proof {
            reveal_strlit("reset");
            lemma_ascii_name("reset"@);
        }
        let reset_xt = self.add_builtin_word("reset", OP_RESET);
        let ghost b_1: int = self@.mem.len() as int;
        proof {
            assert(ascii_filter("reset"@) =~= crate::io::ascii("reset"@));
        }
        proof {
            reveal_strlit("prompt");
            lemma_ascii_name("prompt"@);
        }
        let prompt_xt = self.add_builtin_word("prompt", OP_PROMPT);
        let ghost b_2: int = self@.mem.len() as int;
        proof {
            assert(ascii_filter("prompt"@) =~= crate::io::ascii("prompt"@));
        }
        proof {
            assert(dict_word_below(self@.mem, crate::io::ascii("exit"@), OP_EXIT, b_0));
            lemma_below_weaken(self@.mem, crate::io::ascii("exit"@), OP_EXIT, b_0, self@.mem.len() as int);
            assert(dict_word_below(self@.mem, crate::io::ascii("reset"@), OP_RESET, b_1));
            lemma_below_weaken(self@.mem, crate::io::ascii("reset"@), OP_RESET, b_1, self@.mem.len() as int);
            assert(dict_word_below(self@.mem, crate::io::ascii("prompt"@), OP_PROMPT, b_2));
            lemma_below_weaken(self@.mem, crate::io::ascii("prompt"@), OP_PROMPT, b_2, self@.mem.len() as int);
        }
        (exit_xt, reset_xt, prompt_xt)
    }

    /// Boot: the outer interpreter and literal primitives.
    #[verifier::rlimit(100)]
    fn boot_words_driver_b(&mut self) -> (xts: u32)
        requires
            old(self).wf(),
            old(self)@.mem.len() + 8192 <= 0xFFFF_0000,
            old(self)@.mem.len() <= here_of(old(self)@.mem) <= old(self)@.mem.len() + 3,
            latest_of(old(self)@.mem) == 0 || latest_of(old(self)@.mem) + 4 < old(self)@.mem.len(),
        ensures
            final(self).wf(),
            final(self)@ == (VMView { mem: final(self)@.mem, ..old(self)@ }),
            final(self)@.mem.len() == here_of(final(self)@.mem),
            old(self)@.mem.len() <= final(self)@.mem.len() <= old(self)@.mem.len() + 2048,
            latest_of(final(self)@.mem) + 4 < final(self)@.mem.len(),
            48 <= latest_of(final(self)@.mem),
            dict_word_below(
                final(self)@.mem,
                crate::io::ascii("interpret"@),
                OP_INTERPRET,
                final(self)@.mem.len() as int,
            ),
            dict_word_below(
                final(self)@.mem,
                crate::io::ascii("litstring"@),
                OP_LIT_STRING,
                final(self)@.mem.len() as int,
            ),
            dict_word_below(
                final(self)@.mem,
                crate::io::ascii("'"@),
                OP_TICK,
                final(self)@.mem.len() as int,
            ),
            (forall|nm: Seq<u8>, o: u8, bound: int|
                bound <= old(self)@.mem.len() && dict_word_below(old(self)@.mem, nm, o, bound)
                    ==> #[trigger] dict_word_below(final(self)@.mem, nm, o, bound)),
            (forall|nm: Seq<u8>, o: u8, bound: int|
                bound <= old(self)@.mem.len() && dict_imm_below(old(self)@.mem, nm, o, bound)
                    ==> #[trigger] dict_imm_below(final(self)@.mem, nm, o, bound)),
            (forall|j: int|
                48 <= j < old(self)@.mem.len() ==> #[trigger] final(self)@.mem[j]
                    == old(self)@.mem[j]),
            base_of(final(self)@.mem) == base_of(old(self)@.mem),
            state_of(final(self)@.mem) == state_of(old(self)@.mem),
            48 <= xts < final(self)@.mem.len(),
            final(self)@.mem[xts as int] == OP_INTERPRET,
    {
        proof {
            reveal_strlit("interpret");
            lemma_ascii_name("interpret"@);
        }
        let interpret_xt = self.add_builtin_word("interpret", OP_INTERPRET);
        let ghost b_0: int = self@.mem.len() as int;
        proof {
            assert(ascii_filter("interpret"@) =~= crate::io::ascii("interpret"@));
        }
        proof {
            reveal_strlit("litstring");
            lemma_ascii_name("litstring"@);
        }
        let w_litstring = self.add_builtin_word("litstring", OP_LIT_STRING);
        let ghost b_1: int = self@.mem.len() as int;
        proof {
            assert(ascii_filter("litstring"@) =~= crate::io::ascii("litstring"@));
        }
        proof {
            reveal_strlit("'");
            lemma_ascii_name("'"@);
        }
        let w_tick = self.add_builtin_word("'", OP_TICK);
        let ghost b_2: int = self@.mem.len() as int;
        proof {
            assert(ascii_filter("'"@) =~= crate::io::ascii("'"@));
        }
        proof {
            assert(dict_word_below(self@.mem, crate::io::ascii("interpret"@), OP_INTERPRET, b_0));
            lemma_below_weaken(self@.mem, crate::io::ascii("interpret"@), OP_INTERPRET, b_0, self@.mem.len() as int);
            assert(dict_word_below(self@.mem, crate::io::ascii("litstring"@), OP_LIT_STRING, b_1));
            lemma_below_weaken(self@.mem, crate::io::ascii("litstring"@), OP_LIT_STRING, b_1, self@.mem.len() as int);
            assert(dict_word_below(self@.mem, crate::io::ascii("'"@), OP_TICK, b_2));
            lemma_below_weaken(self@.mem, crate::io::ascii("'"@), OP_TICK, b_2, self@.mem.len() as int);
        }
        interpret_xt
    }

    /// Boot: the colon-coded `base` and `here` words.
    #[verifier::rlimit(100)]
    fn boot_words_cells_a(&mut self, lit: u32, exit_xt: u32) -> (xts: ())
        requires
            old(self).wf(),
            old(self)@.mem.len() + 65536 <= 0xFFFF_0000,
            old(self)@.mem.len() <= here_of(old(self)@.mem) <= old(self)@.mem.len() + 3,
            latest_of(old(self)@.mem) == 0 || latest_of(old(self)@.mem) + 4 < old(self)@.mem.len(),
        ensures
            final(self).wf(),
            final(self)@ == (VMView { mem: final(self)@.mem, ..old(self)@ }),
            final(self)@.mem.len() <= here_of(final(self)@.mem) <= final(self)@.mem.len() + 3,
            old(self)@.mem.len() <= final(self)@.mem.len() <= old(self)@.mem.len() + 2048,
            latest_of(final(self)@.mem) + 4 < final(self)@.mem.len(),
            48 <= latest_of(final(self)@.mem),
            dict_word_below(
                final(self)@.mem,
                crate::io::ascii("base"@),
                0,
                final(self)@.mem.len() as int,
            ),
            dict_word_below(
                final(self)@.mem,
                crate::io::ascii("here"@),
                0,
                final(self)@.mem.len() as int,
            ),
            (forall|nm: Seq<u8>, o: u8, bound: int|
                bound <= old(self)@.mem.len() && dict_word_below(old(self)@.mem, nm, o, bound)
                    ==> #[trigger] dict_word_below(final(self)@.mem, nm, o, bound)),
            (forall|nm: Seq<u8>, o: u8, bound: int|
                bound <= old(self)@.mem.len() && dict_imm_below(old(self)@.mem, nm, o, bound)
                    ==> #[trigger] dict_imm_below(final(self)@.mem, nm, o, bound)),
            (forall|j: int|
                48 <= j < old(self)@.mem.len() ==> #[trigger] final(self)@.mem[j]
                    == old(self)@.mem[j]),
            base_of(final(self)@.mem) == base_of(old(self)@.mem),
            state_of(final(self)@.mem) == state_of(old(self)@.mem),
    {
        proof {
            reveal_strlit("base");
            lemma_ascii_name("base"@);
        }
        let w_base = self.add_colon_word("base", vec![lit, ADDR_BASE, exit_xt]);
        let ghost b_0: int = w_base as int + 1;
        proof {
            assert(ascii_filter("base"@) =~= crate::io::ascii("base"@));
        }
        proof {
            reveal_strlit("here");
            lemma_ascii_name("here"@);
        }
        let w_here = self.add_colon_word("here", vec![lit, ADDR_HERE, exit_xt]);
        let ghost b_1: int = w_here as int + 1;
        proof {
            assert(ascii_filter("here"@) =~= crate::io::ascii("here"@));
        }
        proof {
            assert(dict_word_below(self@.mem, crate::io::ascii("base"@), 0, b_0));
            lemma_below_weaken(self@.mem, crate::io::ascii("base"@), 0, b_0, self@.mem.len() as int);
            assert(dict_word_below(self@.mem, crate::io::ascii("here"@), 0, b_1));
            lemma_below_weaken(self@.mem, crate::io::ascii("here"@), 0, b_1, self@.mem.len() as int);
        }
        ()
    }

    /// Boot: the colon-coded `latest` and `state` words.
    #[verifier::rlimit(100)]
    fn boot_words_cells_b(&mut self, lit: u32, exit_xt: u32) -> (latest_xt: u32)
        requires
            old(self).wf(),
            old(self)@.mem.len() + 65536 <= 0xFFFF_0000,
            old(self)@.mem.len() <= here_of(old(self)@.mem) <= old(self)@.mem.len() + 3,
            latest_of(old(self)@.mem) == 0 || latest_of(old(self)@.mem) + 4 < old(self)@.mem.len(),
        ensures
            final(self).wf(),
            final(self)@ == (VMView { mem: final(self)@.mem, ..old(self)@ }),
            final(self)@.mem.len() <= here_of(final(self)@.mem) <= final(self)@.mem.len() + 3,
            old(self)@.mem.len() <= final(self)@.mem.len() <= old(self)@.mem.len() + 2048,
            latest_of(final(self)@.mem) + 4 < final(self)@.mem.len(),
            48 <= latest_of(final(self)@.mem),
            dict_word_below(
                final(self)@.mem,
                crate::io::ascii("latest"@),
                0,
                final(self)@.mem.len() as int,
            ),
            dict_word_below(
                final(self)@.mem,
                crate::io::ascii("state"@),
                0,
                final(self)@.mem.len() as int,
            ),
            (forall|nm: Seq<u8>, o: u8, bound: int|
                bound <= old(self)@.mem.len() && dict_word_below(old(self)@.mem, nm, o, bound)
                    ==> #[trigger] dict_word_below(final(self)@.mem, nm, o, bound)),
            (forall|nm: Seq<u8>, o: u8, bound: int|
                bound <= old(self)@.mem.len() && dict_imm_below(old(self)@.mem, nm, o, bound)
                    ==> #[trigger] dict_imm_below(final(self)@.mem, nm, o, bound)),
            (forall|j: int|
                48 <= j < old(self)@.mem.len() ==> #[trigger] final(self)@.mem[j]
                    == old(self)@.mem[j]),
            base_of(final(self)@.mem) == base_of(old(self)@.mem),
            state_of(final(self)@.mem) == state_of(old(self)@.mem),
    {
        proof {
            reveal_strlit("latest");
            lemma_ascii_name("latest"@);
        }
        let latest_xt = self.add_colon_word("latest", vec![lit, ADDR_LATEST, exit_xt]);
        let ghost b_0: int = latest_xt as int + 1;
        proof {
            assert(ascii_filter("latest"@) =~= crate::io::ascii("latest"@));
        }
        proof {
            reveal_strlit("state");
            lemma_ascii_name("state"@);
        }
        let w_state = self.add_colon_word("state", vec![lit, ADDR_STATE, exit_xt]);
        let ghost b_1: int = w_state as int + 1;
        proof {
            assert(ascii_filter("state"@) =~= crate::io::ascii("state"@));
        }
        proof {
            assert(dict_word_below(self@.mem, crate::io::ascii("latest"@), 0, b_0));
            lemma_below_weaken(self@.mem, crate::io::ascii("latest"@), 0, b_0, self@.mem.len() as int);
            assert(dict_word_below(self@.mem, crate::io::ascii("state"@), 0, b_1));
            lemma_below_weaken(self@.mem, crate::io::ascii("state"@), 0, b_1, self@.mem.len() as int);
        }
        latest_xt
    }

    /// Boot: the colon-coded `:`, which reads a name, creates its header,
    /// begins the code field hidden and enters compile mode.
    #[verifier::rlimit(100)]
    fn boot_word_colon(
        &mut self,
        lit: u32,
        fetch: u32,
        align_xt: u32,
        word_xt: u32,
        rbracket: u32,
        create_xt: u32,
        ccomma: u32,
        hidden_xt: u32,
        exit_xt: u32,
        latest_xt: u32,
    )
        requires
            old(self).wf(),
            old(self)@.mem.len() + 8192 <= 0xFFFF_0000,
            old(self)@.mem.len() <= here_of(old(self)@.mem) <= old(self)@.mem.len() + 3,
            latest_of(old(self)@.mem) == 0 || latest_of(old(self)@.mem) + 4 < old(self)@.mem.len(),
        ensures
            final(self).wf(),
            final(self)@ == (VMView { mem: final(self)@.mem, ..old(self)@ }),
            final(self)@.mem.len() <= here_of(final(self)@.mem) <= final(self)@.mem.len() + 3,
            old(self)@.mem.len() <= final(self)@.mem.len() <= old(self)@.mem.len() + 2048,
            latest_of(final(self)@.mem) + 4 < final(self)@.mem.len(),
            48 <= latest_of(final(self)@.mem),
            dict_word_below(
                final(self)@.mem,
                crate::io::ascii(":"@),
                0,
                final(self)@.mem.len() as int,
            ),
            (forall|nm: Seq<u8>, o: u8, bound: int|
                bound <= old(self)@.mem.len() && dict_word_below(old(self)@.mem, nm, o, bound)
                    ==> #[trigger] dict_word_below(final(self)@.mem, nm, o, bound)),
            (forall|nm: Seq<u8>, o: u8, bound: int|
                bound <= old(self)@.mem.len() && dict_imm_below(old(self)@.mem, nm, o, bound)
                    ==> #[trigger] dict_imm_below(final(self)@.mem, nm, o, bound)),
            (forall|j: int|
                48 <= j < old(self)@.mem.len() ==> #[trigger] final(self)@.mem[j]
                    == old(self)@.mem[j]),
            base_of(final(self)@.mem) == base_of(old(self)@.mem),
            state_of(final(self)@.mem) == state_of(old(self)@.mem),
    {
        proof {
            reveal_strlit(":");
            lemma_ascii_name(":"@);
        }
        let w_colon = self.add_colon_word(
            ":",
            vec![
                word_xt,
                create_xt,
                lit,
                0u32,
                ccomma,
                align_xt,
                latest_xt,
                fetch,
                hidden_xt,
                rbracket,
                exit_xt,
            ],
        );
        let ghost b_0: int = w_colon as int + 1;
        proof {
            assert(ascii_filter(":"@) =~= crate::io::ascii(":"@));
            assert(dict_word_below(self@.mem, crate::io::ascii(":"@), 0, b_0));
            lemma_below_weaken(self@.mem, crate::io::ascii(":"@), 0, b_0, self@.mem.len() as int);
        }
    }

    /// Boot: the colon-coded `;`, made immediate: it closes a definition
    /// with `exit`, unhides it and returns to interpret mode.
    #[verifier::rlimit(100)]
    fn boot_word_semicolon(
        &mut self,
        lit: u32,
        fetch: u32,
        lbracket: u32,
        comma: u32,
        hidden_xt: u32,
        exit_xt: u32,
        latest_xt: u32,
    )
        requires
            old(self).wf(),
            old(self)@.mem.len() + 8192 <= 0xFFFF_0000,
            old(self)@.mem.len() <= here_of(old(self)@.mem) <= old(self)@.mem.len() + 3,
            latest_of(old(self)@.mem) == 0 || latest_of(old(self)@.mem) + 4 < old(self)@.mem.len(),
        ensures
            final(self).wf(),
            final(self)@ == (VMView { mem: final(self)@.mem, ..old(self)@ }),
            final(self)@.mem.len() <= here_of(final(self)@.mem) <= final(self)@.mem.len() + 3,
            old(self)@.mem.len() <= final(self)@.mem.len() <= old(self)@.mem.len() + 2048,
            latest_of(final(self)@.mem) + 4 < final(self)@.mem.len(),
            48 <= latest_of(final(self)@.mem),
            dict_word_below(
                final(self)@.mem,
                crate::io::ascii(";"@),
                0,
                final(self)@.mem.len() as int,
            ),
            dict_imm_below(
                final(self)@.mem,
                crate::io::ascii(";"@),
                0,
                final(self)@.mem.len() as int,
            ),
            (forall|nm: Seq<u8>, o: u8, bound: int|
                bound <= old(self)@.mem.len() && dict_word_below(old(self)@.mem, nm, o, bound)
                    ==> #[trigger] dict_word_below(final(self)@.mem, nm, o, bound)),
            (forall|nm: Seq<u8>, o: u8, bound: int|
                bound <= old(self)@.mem.len() && dict_imm_below(old(self)@.mem, nm, o, bound)
                    ==> #[trigger] dict_imm_below(final(self)@.mem, nm, o, bound)),
            (forall|j: int|
                48 <= j < old(self)@.mem.len() ==> #[trigger] final(self)@.mem[j]
                    == old(self)@.mem[j]),
            base_of(final(self)@.mem) == base_of(old(self)@.mem),
            state_of(final(self)@.mem) == state_of(old(self)@.mem),
    {
        proof {
            reveal_strlit(";");
            lemma_ascii_name(";"@);
        }
        let w_semicolon = self.add_colon_word(
            ";",
            vec![lit, exit_xt, comma, latest_xt, fetch, hidden_xt, lbracket, exit_xt],
        );
        let ghost b_0: int = w_semicolon as int + 1;
        proof {
            assert(ascii_filter(";"@) =~= crate::io::ascii(";"@));
        }
        let ghost pre_toggle = self@.mem;
        match self.immediate() {
            Ok(u) => u,
            Err(e) => {
                proof {
                    assert(false);
                }
                return ;
            },
        };
        proof {
            let lat = latest_of(pre_toggle);
            let nl = ascii_filter(";"@).len() as u8;
            assert(pre_toggle[lat + 4] == nl);
            assert(nl <= 31 ==> (nl & 64) == 0) by (bit_vector);
            lemma_dict_toggle(pre_toggle, lat);
            assert(dict_word_below(self@.mem, ascii_filter(";"@), 0, pre_toggle.len() as int));
            assert(dict_imm_below(self@.mem, ascii_filter(";"@), 0, pre_toggle.len() as int));
            lemma_below_weaken(
                self@.mem,
                crate::io::ascii(";"@),
                0,
                pre_toggle.len() as int,
                self@.mem.len() as int,
            );
            lemma_imm_weaken(
                self@.mem,
                crate::io::ascii(";"@),
                0,
                pre_toggle.len() as int,
                self@.mem.len() as int,
            );
        }
    }

    /// Boot: the `quit` loop, which becomes the entry point; its final
    /// branch offset jumps back over `prompt` and `interpret`.
    #[verifier::rlimit(100)]
    fn boot_words_quit(
        &mut self,
        reset_xt: u32,
        prompt_xt: u32,
        interpret_xt: u32,
        branch_xt: u32,
    )
        requires
            old(self).wf(),
            old(self)@.mem.len() + 8192 <= 0xFFFF_0000,
            old(self)@.mem.len() <= here_of(old(self)@.mem) <= old(self)@.mem.len() + 3,
            latest_of(old(self)@.mem) == 0 || latest_of(old(self)@.mem) + 4 < old(self)@.mem.len(),
        ensures
            final(self).wf(),
            final(self)@ == (VMView {
                mem: final(self)@.mem,
                pc: final(self)@.pc,
                entry: final(self)@.entry,
                ..old(self)@
            }),
            final(self)@.mem.len() <= here_of(final(self)@.mem) <= final(self)@.mem.len() + 3,
            old(self)@.mem.len() <= final(self)@.mem.len() <= old(self)@.mem.len() + 2048,
            latest_of(final(self)@.mem) + 4 < final(self)@.mem.len(),
            48 <= latest_of(final(self)@.mem),
            dict_word_below(
                final(self)@.mem,
                crate::io::ascii("quit"@),
                0,
                final(self)@.mem.len() as int,
            ),
            (forall|nm: Seq<u8>, o: u8, bound: int|
                bound <= old(self)@.mem.len() && dict_word_below(old(self)@.mem, nm, o, bound)
                    ==> #[trigger] dict_word_below(final(self)@.mem, nm, o, bound)),
            (forall|nm: Seq<u8>, o: u8, bound: int|
                bound <= old(self)@.mem.len() && dict_imm_below(old(self)@.mem, nm, o, bound)
                    ==> #[trigger] dict_imm_below(final(self)@.mem, nm, o, bound)),
            (forall|j: int|
                48 <= j < old(self)@.mem.len() ==> #[trigger] final(self)@.mem[j]
                    == old(self)@.mem[j]),
            base_of(final(self)@.mem) == base_of(old(self)@.mem),
            state_of(final(self)@.mem) == state_of(old(self)@.mem),
            final(self)@.pc == final(self)@.entry,
            final(self)@.entry % 4 == 0,
            final(self)@.entry as int + 20 <= final(self)@.mem.len(),
            le32_at(final(self)@.mem, final(self)@.entry as int) == reset_xt,
            le32_at(final(self)@.mem, final(self)@.entry as int + 4) == prompt_xt,
            le32_at(final(self)@.mem, final(self)@.entry as int + 8) == interpret_xt,
            le32_at(final(self)@.mem, final(self)@.entry as int + 12) == branch_xt,
            le32_at(final(self)@.mem, final(self)@.entry as int + 16) == 0xFFFF_FFF4u32,
    {
        let body = vec![reset_xt, prompt_xt, interpret_xt, branch_xt, 0xFFFF_FFF4u32];
        proof {
            assert(body@ =~= seq![reset_xt, prompt_xt, interpret_xt, branch_xt, 0xFFFF_FFF4u32]);
            reveal_strlit("quit");
            lemma_ascii_name("quit"@);
        }
        let quit = self.add_colon_word("quit", body);
        let ghost b_0: int = quit as int + 1;
        proof {
            assert(ascii_filter("quit"@) =~= crate::io::ascii("quit"@));
        }
        self.set_entry_point(quit);
        proof {
            lemma_align_up(wadd(quit, 1));
            assert(dict_word_below(self@.mem, crate::io::ascii("quit"@), 0, b_0));
            lemma_below_weaken(self@.mem, crate::io::ascii("quit"@), 0, b_0, self@.mem.len() as int);
        }
    }

    /// Boot stage: the literal and stack primitives with the memory accessors.
    #[verifier::rlimit(100)]
    fn init_stage_stack(&mut self) -> (xts: (u32, u32, u32))
        requires
            old(self).wf(),
            old(self)@.mem.len() + 65536 <= 0xFFFF_0000,
            old(self)@.mem.len() <= here_of(old(self)@.mem) <= old(self)@.mem.len() + 3,
            latest_of(old(self)@.mem) == 0 || latest_of(old(self)@.mem) + 4 < old(self)@.mem.len(),
        ensures
            final(self).wf(),
            final(self)@ == (VMView { mem: final(self)@.mem, ..old(self)@ }),
            final(self)@.mem.len() == here_of(final(self)@.mem),
            old(self)@.mem.len() <= final(self)@.mem.len() <= old(self)@.mem.len() + 8192,
            latest_of(final(self)@.mem) + 4 < final(self)@.mem.len(),
            48 <= latest_of(final(self)@.mem),
            dict_word_below(
                final(self)@.mem,
                crate::io::ascii("lit"@),
                OP_LIT,
                final(self)@.mem.len() as int,
            ),
            dict_word_below(
                final(self)@.mem,
                crate::io::ascii("dup"@),
                OP_DUP,
                final(self)@.mem.len() as int,
            ),
            dict_word_below(
                final(self)@.mem,
                crate::io::ascii("drop"@),
                OP_DROP,
                final(self)@.mem.len() as int,
            ),
            dict_word_below(
                final(self)@.mem,
                crate::io::ascii("swap"@),
                OP_SWAP,
                final(self)@.mem.len() as int,
            ),
            dict_word_below(
                final(self)@.mem,
                crate::io::ascii("depth"@),
                OP_DEPTH,
                final(self)@.mem.len() as int,
            ),
            dict_word_below(
                final(self)@.mem,
                crate::io::ascii(">r"@),
                OP_TO_R,
                final(self)@.mem.len() as int,
            ),
            dict_word_below(
                final(self)@.mem,
                crate::io::ascii("r>"@),
                OP_FROM_R,
                final(self)@.mem.len() as int,
            ),
            dict_word_below(
                final(self)@.mem,
                crate::io::ascii("@"@),
                OP_FETCH,
                final(self)@.mem.len() as int,
            ),
            dict_word_below(
                final(self)@.mem,
                crate::io::ascii("c@"@),
                OP_C_FETCH,
                final(self)@.mem.len() as int,
            ),
            dict_word_below(
                final(self)@.mem,
                crate::io::ascii("!"@),
                OP_STORE,
                final(self)@.mem.len() as int,
            ),
            dict_word_below(
                final(self)@.mem,
                crate::io::ascii("align"@),
                OP_ALIGN,
                final(self)@.mem.len() as int,
            ),
            dict_word_below(
                final(self)@.mem,
                crate::io::ascii("c!"@),
                OP_C_STORE,
                final(self)@.mem.len() as int,
            ),
            (forall|nm: Seq<u8>, o: u8, bound: int|
                bound <= old(self)@.mem.len() && dict_word_below(old(self)@.mem, nm, o, bound)
                    ==> #[trigger] dict_word_below(final(self)@.mem, nm, o, bound)),
            (forall|nm: Seq<u8>, o: u8, bound: int|
                bound <= old(self)@.mem.len() && dict_imm_below(old(self)@.mem, nm, o, bound)
                    ==> #[trigger] dict_imm_below(final(self)@.mem, nm, o, bound)),
            (forall|j: int|
                48 <= j < old(self)@.mem.len() ==> #[trigger] final(self)@.mem[j]
                    == old(self)@.mem[j]),
            base_of(final(self)@.mem) == base_of(old(self)@.mem),
            state_of(final(self)@.mem) == state_of(old(self)@.mem),
            48 <= xts.0 < final(self)@.mem.len(),
            final(self)@.mem[xts.0 as int] == OP_LIT,
    {
        let lit = self.boot_words_stack_a();
        let ghost n_0: int = self@.mem.len() as int;
        self.boot_words_stack_b();
        let ghost n_1: int = self@.mem.len() as int;
        let fetch = self.boot_words_memory_a();
        let ghost n_2: int = self@.mem.len() as int;
        let align_xt = self.boot_words_memory_b();
        let ghost n_3: int = self@.mem.len() as int;
        proof {
            lemma_below_weaken(self@.mem, crate::io::ascii("lit"@), OP_LIT, n_0, self@.mem.len() as int);
            lemma_below_weaken(self@.mem, crate::io::ascii("dup"@), OP_DUP, n_0, self@.mem.len() as int);
            lemma_below_weaken(self@.mem, crate::io::ascii("drop"@), OP_DROP, n_0, self@.mem.len() as int);
            lemma_below_weaken(self@.mem, crate::io::ascii("swap"@), OP_SWAP, n_1, self@.mem.len() as int);
            lemma_below_weaken(self@.mem, crate::io::ascii("depth"@), OP_DEPTH, n_1, self@.mem.len() as int);
            lemma_below_weaken(self@.mem, crate::io::ascii(">r"@), OP_TO_R, n_1, self@.mem.len() as int);
            lemma_below_weaken(self@.mem, crate::io::ascii("r>"@), OP_FROM_R, n_2, self@.mem.len() as int);
            lemma_below_weaken(self@.mem, crate::io::ascii("@"@), OP_FETCH, n_2, self@.mem.len() as int);
            lemma_below_weaken(self@.mem, crate::io::ascii("c@"@), OP_C_FETCH, n_2, self@.mem.len() as int);
            lemma_below_weaken(self@.mem, crate::io::ascii("!"@), OP_STORE, n_3, self@.mem.len() as int);
            lemma_below_weaken(self@.mem, crate::io::ascii("align"@), OP_ALIGN, n_3, self@.mem.len() as int);
            lemma_below_weaken(self@.mem, crate::io::ascii("c!"@), OP_C_STORE, n_3, self@.mem.len() as int);
        }
        (lit, fetch, align_xt)
    }

    /// Boot stage: the arithmetic, comparison and logic primitives.
    #[verifier::rlimit(100)]
    fn init_stage_arith(&mut self) -> (xts: ())
        requires
            old(self).wf(),
            old(self)@.mem.len() + 65536 <= 0xFFFF_0000,
            old(self)@.mem.len() <= here_of(old(self)@.mem) <= old(self)@.mem.len() + 3,
            latest_of(old(self)@.mem) == 0 || latest_of(old(self)@.mem) + 4 < old(self)@.mem.len(),
        ensures
            final(self).wf(),
            final(self)@ == (VMView { mem: final(self)@.mem, ..old(self)@ }),
            final(self)@.mem.len() == here_of(final(self)@.mem),
            old(self)@.mem.len() <= final(self)@.mem.len() <= old(self)@.mem.len() + 8192,
            latest_of(final(self)@.mem) + 4 < final(self)@.mem.len(),
            48 <= latest_of(final(self)@.mem),
            dict_word_below(
                final(self)@.mem,
                crate::io::ascii("+"@),
                OP_ADD,
                final(self)@.mem.len() as int,
            ),
            dict_word_below(
                final(self)@.mem,
                crate::io::ascii("-"@),
                OP_SUBTRACT,
                final(self)@.mem.len() as int,
            ),
            dict_word_below(
                final(self)@.mem,
                crate::io::ascii("*"@),
                OP_MULTIPLY,
                final(self)@.mem.len() as int,
            ),
            dict_word_below(
                final(self)@.mem,
                crate::io::ascii("/mod"@),
                OP_DIV_MOD,
                final(self)@.mem.len() as int,
            ),
            dict_word_below(
                final(self)@.mem,
                crate::io::ascii("="@),
                OP_EQUALS,
                final(self)@.mem.len() as int,
            ),
            dict_word_below(
                final(self)@.mem,
                crate::io::ascii("<"@),
                OP_LESS_THAN,
                final(self)@.mem.len() as int,
            ),
            dict_word_below(
                final(self)@.mem,
                crate::io::ascii(">"@),
                OP_GREATER_THAN,
                final(self)@.mem.len() as int,
            ),
            dict_word_below(
                final(self)@.mem,
                crate::io::ascii("and"@),
                OP_AND,
                final(self)@.mem.len() as int,
            ),
            dict_word_below(
                final(self)@.mem,
                crate::io::ascii("or"@),
                OP_OR,
                final(self)@.mem.len() as int,
            ),
            dict_word_below(
                final(self)@.mem,
                crate::io::ascii("xor"@),
                OP_XOR,
                final(self)@.mem.len() as int,
            ),
            dict_word_below(
                final(self)@.mem,
                crate::io::ascii("invert"@),
                OP_INVERT,
                final(self)@.mem.len() as int,
            ),
            (forall|nm: Seq<u8>, o: u8, bound: int|
                bound <= old(self)@.mem.len() && dict_word_below(old(self)@.mem, nm, o, bound)
                    ==> #[trigger] dict_word_below(final(self)@.mem, nm, o, bound)),
            (forall|nm: Seq<u8>, o: u8, bound: int|
                bound <= old(self)@.mem.len() && dict_imm_below(old(self)@.mem, nm, o, bound)
                    ==> #[trigger] dict_imm_below(final(self)@.mem, nm, o, bound)),
            (forall|j: int|
                48 <= j < old(self)@.mem.len() ==> #[trigger] final(self)@.mem[j]
                    == old(self)@.mem[j]),
            base_of(final(self)@.mem) == base_of(old(self)@.mem),
            state_of(final(self)@.mem) == state_of(old(self)@.mem),
    {
        self.boot_words_arith_a();
        let ghost n_0: int = self@.mem.len() as int;
        self.boot_words_arith_b();
        let ghost n_1: int = self@.mem.len() as int;
        self.boot_words_logic();
        let ghost n_2: int = self@.mem.len() as int;
        proof {
            lemma_below_weaken(self@.mem, crate::io::ascii("+"@), OP_ADD, n_0, self@.mem.len() as int);
            lemma_below_weaken(self@.mem, crate::io::ascii("-"@), OP_SUBTRACT, n_0, self@.mem.len() as int);
            lemma_below_weaken(self@.mem, crate::io::ascii("*"@), OP_MULTIPLY, n_0, self@.mem.len() as int);
            lemma_below_weaken(self@.mem, crate::io::ascii("/mod"@), OP_DIV_MOD, n_1, self@.mem.len() as int);
            lemma_below_weaken(self@.mem, crate::io::ascii("="@), OP_EQUALS, n_1, self@.mem.len() as int);
            lemma_below_weaken(self@.mem, crate::io::ascii("<"@), OP_LESS_THAN, n_1, self@.mem.len() as int);
            lemma_below_weaken(self@.mem, crate::io::ascii(">"@), OP_GREATER_THAN, n_2, self@.mem.len() as int);
            lemma_below_weaken(self@.mem, crate::io::ascii("and"@), OP_AND, n_2, self@.mem.len() as int);
            lemma_below_weaken(self@.mem, crate::io::ascii("or"@), OP_OR, n_2, self@.mem.len() as int);
            lemma_below_weaken(self@.mem, crate::io::ascii("xor"@), OP_XOR, n_2, self@.mem.len() as int);
            lemma_below_weaken(self@.mem, crate::io::ascii("invert"@), OP_INVERT, n_2, self@.mem.len() as int);
        }
        ()
    }

    /// Boot stage: the input, lookup and compiling primitives.
    #[verifier::rlimit(100)]
    fn init_stage_reader(&mut self) -> (xts: (u32, u32, u32, u32, u32, u32))
        requires
            old(self).wf(),
            old(self)@.mem.len() + 65536 <= 0xFFFF_0000,
            old(self)@.mem.len() <= here_of(old(self)@.mem) <= old(self)@.mem.len() + 3,
            latest_of(old(self)@.mem) == 0 || latest_of(old(self)@.mem) + 4 < old(self)@.mem.len(),
        ensures
            final(self).wf(),
            final(self)@ == (VMView { mem: final(self)@.mem, ..old(self)@ }),
            final(self)@.mem.len() == here_of(final(self)@.mem),
            old(self)@.mem.len() <= final(self)@.mem.len() <= old(self)@.mem.len() + 8192,
            latest_of(final(self)@.mem) + 4 < final(self)@.mem.len(),
            48 <= latest_of(final(self)@.mem),
            dict_word_below(
                final(self)@.mem,
                crate::io::ascii("key"@),
                OP_KEY,
                final(self)@.mem.len() as int,
            ),
            dict_word_below(
                final(self)@.mem,
                crate::io::ascii("word"@),
                OP_WORD,
                final(self)@.mem.len() as int,
            ),
            dict_word_below(
                final(self)@.mem,
                crate::io::ascii("emit"@),
                OP_EMIT,
                final(self)@.mem.len() as int,
            ),
            dict_word_below(
                final(self)@.mem,
                crate::io::ascii("find"@),
                OP_FIND,
                final(self)@.mem.len() as int,
            ),
            dict_word_below(
                final(self)@.mem,
                crate::io::ascii("number"@),
                OP_NUMBER,
                final(self)@.mem.len() as int,
            ),
            dict_word_below(
                final(self)@.mem,
                crate::io::ascii(">cfa"@),
                OP_TO_CFA,
                final(self)@.mem.len() as int,
            ),
            dict_word_below(
                final(self)@.mem,
                crate::io::ascii("["@),
                OP_L_BRACKET,
                final(self)@.mem.len() as int,
            ),
            dict_word_below(
                final(self)@.mem,
                crate::io::ascii("]"@),
                OP_R_BRACKET,
                final(self)@.mem.len() as int,
            ),
            dict_word_below(
                final(self)@.mem,
                crate::io::ascii("create"@),
                OP_CREATE,
                final(self)@.mem.len() as int,
            ),
            dict_word_below(
                final(self)@.mem,
                crate::io::ascii(","@),
                OP_COMMA,
                final(self)@.mem.len() as int,
            ),
            dict_word_below(
                final(self)@.mem,
                crate::io::ascii("c,"@),
                OP_C_COMMA,
                final(self)@.mem.len() as int,
            ),
            (forall|nm: Seq<u8>, o: u8, bound: int|
                bound <= old(self)@.mem.len() && dict_word_below(old(self)@.mem, nm, o, bound)
                    ==> #[trigger] dict_word_below(final(self)@.mem, nm, o, bound)),
            (forall|nm: Seq<u8>, o: u8, bound: int|
                bound <= old(self)@.mem.len() && dict_imm_below(old(self)@.mem, nm, o, bound)
                    ==> #[trigger] dict_imm_below(final(self)@.mem, nm, o, bound)),
            (forall|j: int|
                48 <= j < old(self)@.mem.len() ==> #[trigger] final(self)@.mem[j]
                    == old(self)@.mem[j]),
            base_of(final(self)@.mem) == base_of(old(self)@.mem),
            state_of(final(self)@.mem) == state_of(old(self)@.mem),
    {
        let word_xt = self.boot_words_input_a();
        let ghost n_0: int = self@.mem.len() as int;
        self.boot_words_input_b();
        let ghost n_0b: int = self@.mem.len() as int;
        let compile_words = self.boot_words_compile();
        let ghost n_1: int = self@.mem.len() as int;
        proof {
            lemma_below_weaken(self@.mem, crate::io::ascii("key"@), OP_KEY, n_0, self@.mem.len() as int);
            lemma_below_weaken(self@.mem, crate::io::ascii("word"@), OP_WORD, n_0, self@.mem.len() as int);
            lemma_below_weaken(self@.mem, crate::io::ascii("emit"@), OP_EMIT, n_0, self@.mem.len() as int);
            lemma_below_weaken(self@.mem, crate::io::ascii("find"@), OP_FIND, n_0b, self@.mem.len() as int);
            lemma_below_weaken(self@.mem, crate::io::ascii("number"@), OP_NUMBER, n_0b, self@.mem.len() as int);
            lemma_below_weaken(self@.mem, crate::io::ascii(">cfa"@), OP_TO_CFA, n_0b, self@.mem.len() as int);
            lemma_below_weaken(self@.mem, crate::io::ascii("["@), OP_L_BRACKET, n_1, self@.mem.len() as int);
            lemma_below_weaken(self@.mem, crate::io::ascii("]"@), OP_R_BRACKET, n_1, self@.mem.len() as int);
            lemma_below_weaken(self@.mem, crate::io::ascii("create"@), OP_CREATE, n_1, self@.mem.len() as int);
            lemma_below_weaken(self@.mem, crate::io::ascii(","@), OP_COMMA, n_1, self@.mem.len() as int);
            lemma_below_weaken(self@.mem, crate::io::ascii("c,"@), OP_C_COMMA, n_1, self@.mem.len() as int);
        }
        (
            word_xt,
            compile_words.0,
            compile_words.1,
            compile_words.2,
            compile_words.3,
            compile_words.4,
        )
    }

    /// Boot stage: the flag, dispatch and driver primitives.
    #[verifier::rlimit(100)]
    fn init_stage_driver(&mut self) -> (xts: (u32, u32, u32, u32, u32, u32))
        requires
            old(self).wf(),
            old(self)@.mem.len() + 65536 <= 0xFFFF_0000,
            old(self)@.mem.len() <= here_of(old(self)@.mem) <= old(self)@.mem.len() + 3,
            latest_of(old(self)@.mem) == 0 || latest_of(old(self)@.mem) + 4 < old(self)@.mem.len(),
        ensures
            final(self).wf(),
            final(self)@ == (VMView { mem: final(self)@.mem, ..old(self)@ }),
            final(self)@.mem.len() == here_of(final(self)@.mem),
            old(self)@.mem.len() <= final(self)@.mem.len() <= old(self)@.mem.len() + 8192,
            latest_of(final(self)@.mem) + 4 < final(self)@.mem.len(),
            48 <= latest_of(final(self)@.mem),
            dict_word_below(
                final(self)@.mem,
                crate::io::ascii("immediate"@),
                OP_IMMEDIATE,
                final(self)@.mem.len() as int,
            ),
            dict_word_below(
                final(self)@.mem,
                crate::io::ascii("hidden"@),
                OP_HIDDEN,
                final(self)@.mem.len() as int,
            ),
            dict_word_below(
                final(self)@.mem,
                crate::io::ascii("execute"@),
                OP_EXECUTE,
                final(self)@.mem.len() as int,
            ),
            dict_word_below(
                final(self)@.mem,
                crate::io::ascii("branch"@),
                OP_BRANCH,
                final(self)@.mem.len() as int,
            ),
            dict_word_below(
                final(self)@.mem,
                crate::io::ascii("0branch"@),
                OP_BRANCH_IF_ZERO,
                final(self)@.mem.len() as int,
            ),
            dict_word_below(
                final(self)@.mem,
                crate::io::ascii("exit"@),
                OP_EXIT,
                final(self)@.mem.len() as int,
            ),
            dict_word_below(
                final(self)@.mem,
                crate::io::ascii("reset"@),
                OP_RESET,
                final(self)@.mem.len() as int,
            ),
            dict_word_below(
                final(self)@.mem,
                crate::io::ascii("prompt"@),
                OP_PROMPT,
                final(self)@.mem.len() as int,
            ),
            dict_word_below(
                final(self)@.mem,
                crate::io::ascii("interpret"@),
                OP_INTERPRET,
                final(self)@.mem.len() as int,
            ),
            dict_word_below(
                final(self)@.mem,
                crate::io::ascii("litstring"@),
                OP_LIT_STRING,
                final(self)@.mem.len() as int,
            ),
            dict_word_below(
                final(self)@.mem,
                crate::io::ascii("'"@),
                OP_TICK,
                final(self)@.mem.len() as int,
            ),
            dict_imm_below(
                final(self)@.mem,
                crate::io::ascii("immediate"@),
                OP_IMMEDIATE,
                final(self)@.mem.len() as int,
            ),
            (forall|nm: Seq<u8>, o: u8, bound: int|
                bound <= old(self)@.mem.len() && dict_word_below(old(self)@.mem, nm, o, bound)
                    ==> #[trigger] dict_word_below(final(self)@.mem, nm, o, bound)),
            (forall|nm: Seq<u8>, o: u8, bound: int|
                bound <= old(self)@.mem.len() && dict_imm_below(old(self)@.mem, nm, o, bound)
                    ==> #[trigger] dict_imm_below(final(self)@.mem, nm, o, bound)),
            (forall|j: int|
                48 <= j < old(self)@.mem.len() ==> #[trigger] final(self)@.mem[j]
                    == old(self)@.mem[j]),
            base_of(final(self)@.mem) == base_of(old(self)@.mem),
            state_of(final(self)@.mem) == state_of(old(self)@.mem),
            48 <= xts.1 < final(self)@.mem.len(),
            final(self)@.mem[xts.1 as int] == OP_BRANCH,
            48 <= xts.3 < final(self)@.mem.len(),
            final(self)@.mem[xts.3 as int] == OP_RESET,
            48 <= xts.4 < final(self)@.mem.len(),
            final(self)@.mem[xts.4 as int] == OP_PROMPT,
            48 <= xts.5 < final(self)@.mem.len(),
            final(self)@.mem[xts.5 as int] == OP_INTERPRET,
    {
        let hidden_xt = self.boot_words_flags_a();
        let ghost n_0: int = self@.mem.len() as int;
        let branch_xt = self.boot_words_flags_b();
        let ghost n_1: int = self@.mem.len() as int;
        let driver_head = self.boot_words_driver_a();
        let ghost n_2: int = self@.mem.len() as int;
        let interpret_xt = self.boot_words_driver_b();
        let ghost n_3: int = self@.mem.len() as int;
        proof {
            lemma_below_weaken(self@.mem, crate::io::ascii("immediate"@), OP_IMMEDIATE, n_0, self@.mem.len() as int);
            lemma_below_weaken(self@.mem, crate::io::ascii("hidden"@), OP_HIDDEN, n_0, self@.mem.len() as int);
            lemma_imm_weaken(self@.mem, crate::io::ascii("immediate"@), OP_IMMEDIATE, n_0, self@.mem.len() as int);
            lemma_below_weaken(self@.mem, crate::io::ascii("execute"@), OP_EXECUTE, n_1, self@.mem.len() as int);
            lemma_below_weaken(self@.mem, crate::io::ascii("branch"@), OP_BRANCH, n_1, self@.mem.len() as int);
            lemma_below_weaken(self@.mem, crate::io::ascii("0branch"@), OP_BRANCH_IF_ZERO, n_1, self@.mem.len() as int);
            lemma_below_weaken(self@.mem, crate::io::ascii("exit"@), OP_EXIT, n_2, self@.mem.len() as int);
            lemma_below_weaken(self@.mem, crate::io::ascii("reset"@), OP_RESET, n_2, self@.mem.len() as int);
            lemma_below_weaken(self@.mem, crate::io::ascii("prompt"@), OP_PROMPT, n_2, self@.mem.len() as int);
            lemma_below_weaken(self@.mem, crate::io::ascii("interpret"@), OP_INTERPRET, n_3, self@.mem.len() as int);
            lemma_below_weaken(self@.mem, crate::io::ascii("litstring"@), OP_LIT_STRING, n_3, self@.mem.len() as int);
            lemma_below_weaken(self@.mem, crate::io::ascii("'"@), OP_TICK, n_3, self@.mem.len() as int);
        }
        (
            hidden_xt,
            branch_xt,
            driver_head.0,
            driver_head.1,
            driver_head.2,
            interpret_xt,
        )
    }

    /// Boot, first half: the operator primitives.
    #[verifier::rlimit(100)]
    fn init_words_operators(&mut self) -> (xts: (u32, u32, u32))
        requires
            old(self).wf(),
            old(self)@.mem.len() <= 32768,
            old(self)@.mem.len() <= here_of(old(self)@.mem) <= old(self)@.mem.len() + 3,
            latest_of(old(self)@.mem) == 0 || latest_of(old(self)@.mem) + 4 < old(self)@.mem.len(),
        ensures
            final(self).wf(),
            final(self)@ == (VMView { mem: final(self)@.mem, ..old(self)@ }),
            final(self)@.mem.len() == here_of(final(self)@.mem),
            old(self)@.mem.len() <= final(self)@.mem.len() <= old(self)@.mem.len() + 16384,
            latest_of(final(self)@.mem) + 4 < final(self)@.mem.len(),
            48 <= latest_of(final(self)@.mem),
            dict_word_below(
                final(self)@.mem,
                crate::io::ascii("lit"@),
                OP_LIT,
                final(self)@.mem.len() as int,
            ),
            dict_word_below(
                final(self)@.mem,
                crate::io::ascii("dup"@),
                OP_DUP,
                final(self)@.mem.len() as int,
            ),
            dict_word_below(
                final(self)@.mem,
                crate::io::ascii("drop"@),
                OP_DROP,
                final(self)@.mem.len() as int,
            ),
            dict_word_below(
                final(self)@.mem,
                crate::io::ascii("swap"@),
                OP_SWAP,
                final(self)@.mem.len() as int,
            ),
            dict_word_below(
                final(self)@.mem,
                crate::io::ascii("depth"@),
                OP_DEPTH,
                final(self)@.mem.len() as int,
            ),
            dict_word_below(
                final(self)@.mem,
                crate::io::ascii(">r"@),
                OP_TO_R,
                final(self)@.mem.len() as int,
            ),
            dict_word_below(
                final(self)@.mem,
                crate::io::ascii("r>"@),
                OP_FROM_R,
                final(self)@.mem.len() as int,
            ),
            dict_word_below(
                final(self)@.mem,
                crate::io::ascii("@"@),
                OP_FETCH,
                final(self)@.mem.len() as int,
            ),
            dict_word_below(
                final(self)@.mem,
                crate::io::ascii("c@"@),
                OP_C_FETCH,
                final(self)@.mem.len() as int,
            ),
            dict_word_below(
                final(self)@.mem,
                crate::io::ascii("!"@),
                OP_STORE,
                final(self)@.mem.len() as int,
            ),
            dict_word_below(
                final(self)@.mem,
                crate::io::ascii("align"@),
                OP_ALIGN,
                final(self)@.mem.len() as int,
            ),
            dict_word_below(
                final(self)@.mem,
                crate::io::ascii("c!"@),
                OP_C_STORE,
                final(self)@.mem.len() as int,
            ),
            dict_word_below(
                final(self)@.mem,
                crate::io::ascii("+"@),
                OP_ADD,
                final(self)@.mem.len() as int,
            ),
            dict_word_below(
                final(self)@.mem,
                crate::io::ascii("-"@),
                OP_SUBTRACT,
                final(self)@.mem.len() as int,
            ),
            dict_word_below(
                final(self)@.mem,
                crate::io::ascii("*"@),
                OP_MULTIPLY,
                final(self)@.mem.len() as int,
            ),
            dict_word_below(
                final(self)@.mem,
                crate::io::ascii("/mod"@),
                OP_DIV_MOD,
                final(self)@.mem.len() as int,
            ),
            dict_word_below(
                final(self)@.mem,
                crate::io::ascii("="@),
                OP_EQUALS,
                final(self)@.mem.len() as int,
            ),
            dict_word_below(
                final(self)@.mem,
                crate::io::ascii("<"@),
                OP_LESS_THAN,
                final(self)@.mem.len() as int,
            ),
            dict_word_below(
                final(self)@.mem,
                crate::io::ascii(">"@),
                OP_GREATER_THAN,
                final(self)@.mem.len() as int,
            ),
            dict_word_below(
                final(self)@.mem,
                crate::io::ascii("and"@),
                OP_AND,
                final(self)@.mem.len() as int,
            ),
            dict_word_below(
                final(self)@.mem,
                crate::io::ascii("or"@),
                OP_OR,
                final(self)@.mem.len() as int,
            ),
            dict_word_below(
                final(self)@.mem,
                crate::io::ascii("xor"@),
                OP_XOR,
                final(self)@.mem.len() as int,
            ),
            dict_word_below(
                final(self)@.mem,
                crate::io::ascii("invert"@),
                OP_INVERT,
                final(self)@.mem.len() as int,
            ),
            (forall|nm: Seq<u8>, o: u8, bound: int|
                bound <= old(self)@.mem.len() && dict_word_below(old(self)@.mem, nm, o, bound)
                    ==> #[trigger] dict_word_below(final(self)@.mem, nm, o, bound)),
            (forall|nm: Seq<u8>, o: u8, bound: int|
                bound <= old(self)@.mem.len() && dict_imm_below(old(self)@.mem, nm, o, bound)
                    ==> #[trigger] dict_imm_below(final(self)@.mem, nm, o, bound)),
            (forall|j: int|
                48 <= j < old(self)@.mem.len() ==> #[trigger] final(self)@.mem[j]
                    == old(self)@.mem[j]),
            base_of(final(self)@.mem) == base_of(old(self)@.mem),
            state_of(final(self)@.mem) == state_of(old(self)@.mem),
            48 <= xts.0 < final(self)@.mem.len(),
            final(self)@.mem[xts.0 as int] == OP_LIT,
    {
        let ops = self.init_stage_stack();
        let ghost n_0: int = self@.mem.len() as int;
        self.init_stage_arith();
        let ghost n_1: int = self@.mem.len() as int;
        proof {
            lemma_below_weaken(self@.mem, crate::io::ascii("lit"@), OP_LIT, n_0, self@.mem.len() as int);
            lemma_below_weaken(self@.mem, crate::io::ascii("dup"@), OP_DUP, n_0, self@.mem.len() as int);
            lemma_below_weaken(self@.mem, crate::io::ascii("drop"@), OP_DROP, n_0, self@.mem.len() as int);
            lemma_below_weaken(self@.mem, crate::io::ascii("swap"@), OP_SWAP, n_0, self@.mem.len() as int);
            lemma_below_weaken(self@.mem, crate::io::ascii("depth"@), OP_DEPTH, n_0, self@.mem.len() as int);
            lemma_below_weaken(self@.mem, crate::io::ascii(">r"@), OP_TO_R, n_0, self@.mem.len() as int);
            lemma_below_weaken(self@.mem, crate::io::ascii("r>"@), OP_FROM_R, n_0, self@.mem.len() as int);
            lemma_below_weaken(self@.mem, crate::io::ascii("@"@), OP_FETCH, n_0, self@.mem.len() as int);
            lemma_below_weaken(self@.mem, crate::io::ascii("c@"@), OP_C_FETCH, n_0, self@.mem.len() as int);
            lemma_below_weaken(self@.mem, crate::io::ascii("!"@), OP_STORE, n_0, self@.mem.len() as int);
            lemma_below_weaken(self@.mem, crate::io::ascii("align"@), OP_ALIGN, n_0, self@.mem.len() as int);
            lemma_below_weaken(self@.mem, crate::io::ascii("c!"@), OP_C_STORE, n_0, self@.mem.len() as int);
            lemma_below_weaken(self@.mem, crate::io::ascii("+"@), OP_ADD, n_1, self@.mem.len() as int);
            lemma_below_weaken(self@.mem, crate::io::ascii("-"@), OP_SUBTRACT, n_1, self@.mem.len() as int);
            lemma_below_weaken(self@.mem, crate::io::ascii("*"@), OP_MULTIPLY, n_1, self@.mem.len() as int);
            lemma_below_weaken(self@.mem, crate::io::ascii("/mod"@), OP_DIV_MOD, n_1, self@.mem.len() as int);
            lemma_below_weaken(self@.mem, crate::io::ascii("="@), OP_EQUALS, n_1, self@.mem.len() as int);
            lemma_below_weaken(self@.mem, crate::io::ascii("<"@), OP_LESS_THAN, n_1, self@.mem.len() as int);
            lemma_below_weaken(self@.mem, crate::io::ascii(">"@), OP_GREATER_THAN, n_1, self@.mem.len() as int);
            lemma_below_weaken(self@.mem, crate::io::ascii("and"@), OP_AND, n_1, self@.mem.len() as int);
            lemma_below_weaken(self@.mem, crate::io::ascii("or"@), OP_OR, n_1, self@.mem.len() as int);
            lemma_below_weaken(self@.mem, crate::io::ascii("xor"@), OP_XOR, n_1, self@.mem.len() as int);
            lemma_below_weaken(self@.mem, crate::io::ascii("invert"@), OP_INVERT, n_1, self@.mem.len() as int);
        }
        ops
    }

    /// Boot, second half: the reader, flag and driver primitives.
    #[verifier::rlimit(100)]
    fn init_words_devices(&mut self) -> (xts: (u32, u32, u32, u32, u32, u32, u32, u32, u32, u32, u32, u32))
        requires
            old(self).wf(),
            old(self)@.mem.len() <= 32768,
            old(self)@.mem.len() <= here_of(old(self)@.mem) <= old(self)@.mem.len() + 3,
            latest_of(old(self)@.mem) == 0 || latest_of(old(self)@.mem) + 4 < old(self)@.mem.len(),
        ensures
            final(self).wf(),
            final(self)@ == (VMView { mem: final(self)@.mem, ..old(self)@ }),
            final(self)@.mem.len() == here_of(final(self)@.mem),
            old(self)@.mem.len() <= final(self)@.mem.len() <= old(self)@.mem.len() + 16384,
            latest_of(final(self)@.mem) + 4 < final(self)@.mem.len(),
            48 <= latest_of(final(self)@.mem),
            dict_word_below(
                final(self)@.mem,
                crate::io::ascii("key"@),
                OP_KEY,
                final(self)@.mem.len() as int,
            ),
            dict_word_below(
                final(self)@.mem,
                crate::io::ascii("word"@),
                OP_WORD,
                final(self)@.mem.len() as int,
            ),
            dict_word_below(
                final(self)@.mem,
                crate::io::ascii("emit"@),
                OP_EMIT,
                final(self)@.mem.len() as int,
            ),
            dict_word_below(
                final(self)@.mem,
                crate::io::ascii("find"@),
                OP_FIND,
                final(self)@.mem.len() as int,
            ),
            dict_word_below(
                final(self)@.mem,
                crate::io::ascii("number"@),
                OP_NUMBER,
                final(self)@.mem.len() as int,
            ),
            dict_word_below(
                final(self)@.mem,
                crate::io::ascii(">cfa"@),
                OP_TO_CFA,
                final(self)@.mem.len() as int,
            ),
            dict_word_below(
                final(self)@.mem,
                crate::io::ascii("["@),
                OP_L_BRACKET,
                final(self)@.mem.len() as int,
            ),
            dict_word_below(
                final(self)@.mem,
                crate::io::ascii("]"@),
                OP_R_BRACKET,
                final(self)@.mem.len() as int,
            ),
            dict_word_below(
                final(self)@.mem,
                crate::io::ascii("create"@),
                OP_CREATE,
                final(self)@.mem.len() as int,
            ),
            dict_word_below(
                final(self)@.mem,
                crate::io::ascii(","@),
                OP_COMMA,
                final(self)@.mem.len() as int,
            ),
            dict_word_below(
                final(self)@.mem,
                crate::io::ascii("c,"@),
                OP_C_COMMA,
                final(self)@.mem.len() as int,
            ),
            dict_word_below(
                final(self)@.mem,
                crate::io::ascii("immediate"@),
                OP_IMMEDIATE,
                final(self)@.mem.len() as int,
            ),
            dict_word_below(
                final(self)@.mem,
                crate::io::ascii("hidden"@),
                OP_HIDDEN,
                final(self)@.mem.len() as int,
            ),
            dict_word_below(
                final(self)@.mem,
                crate::io::ascii("execute"@),
                OP_EXECUTE,
                final(self)@.mem.len() as int,
            ),
            dict_word_below(
                final(self)@.mem,
                crate::io::ascii("branch"@),
                OP_BRANCH,
                final(self)@.mem.len() as int,
            ),
            dict_word_below(
                final(self)@.mem,
                crate::io::ascii("0branch"@),
                OP_BRANCH_IF_ZERO,
                final(self)@.mem.len() as int,
            ),
            dict_word_below(
                final(self)@.mem,
                crate::io::ascii("exit"@),
                OP_EXIT,
                final(self)@.mem.len() as int,
            ),
            dict_word_below(
                final(self)@.mem,
                crate::io::ascii("reset"@),
                OP_RESET,
                final(self)@.mem.len() as int,
            ),
            dict_word_below(
                final(self)@.mem,
                crate::io::ascii("prompt"@),
                OP_PROMPT,
                final(self)@.mem.len() as int,
            ),
            dict_word_below(
                final(self)@.mem,
                crate::io::ascii("interpret"@),
                OP_INTERPRET,
                final(self)@.mem.len() as int,
            ),
            dict_word_below(
                final(self)@.mem,
                crate::io::ascii("litstring"@),
                OP_LIT_STRING,
                final(self)@.mem.len() as int,
            ),
            dict_word_below(
                final(self)@.mem,
                crate::io::ascii("'"@),
                OP_TICK,
                final(self)@.mem.len() as int,
            ),
            dict_imm_below(
                final(self)@.mem,
                crate::io::ascii("immediate"@),
                OP_IMMEDIATE,
                final(self)@.mem.len() as int,
            ),
            (forall|nm: Seq<u8>, o: u8, bound: int|
                bound <= old(self)@.mem.len() && dict_word_below(old(self)@.mem, nm, o, bound)
                    ==> #[trigger] dict_word_below(final(self)@.mem, nm, o, bound)),
            (forall|nm: Seq<u8>, o: u8, bound: int|
                bound <= old(self)@.mem.len() && dict_imm_below(old(self)@.mem, nm, o, bound)
                    ==> #[trigger] dict_imm_below(final(self)@.mem, nm, o, bound)),
            (forall|j: int|
                48 <= j < old(self)@.mem.len() ==> #[trigger] final(self)@.mem[j]
                    == old(self)@.mem[j]),
            base_of(final(self)@.mem) == base_of(old(self)@.mem),
            state_of(final(self)@.mem) == state_of(old(self)@.mem),
            48 <= xts.7 < final(self)@.mem.len(),
            final(self)@.mem[xts.7 as int] == OP_BRANCH,
            48 <= xts.9 < final(self)@.mem.len(),
            final(self)@.mem[xts.9 as int] == OP_RESET,
            48 <= xts.10 < final(self)@.mem.len(),
            final(self)@.mem[xts.10 as int] == OP_PROMPT,
            48 <= xts.11 < final(self)@.mem.len(),
            final(self)@.mem[xts.11 as int] == OP_INTERPRET,
    {
        let readers = self.init_stage_reader();
        let ghost n_0: int = self@.mem.len() as int;
        let drivers = self.init_stage_driver();
        let ghost n_1: int = self@.mem.len() as int;
        proof {
            lemma_below_weaken(self@.mem, crate::io::ascii("key"@), OP_KEY, n_0, self@.mem.len() as int);
            lemma_below_weaken(self@.mem, crate::io::ascii("word"@), OP_WORD, n_0, self@.mem.len() as int);
            lemma_below_weaken(self@.mem, crate::io::ascii("emit"@), OP_EMIT, n_0, self@.mem.len() as int);
            lemma_below_weaken(self@.mem, crate::io::ascii("find"@), OP_FIND, n_0, self@.mem.len() as int);
            lemma_below_weaken(self@.mem, crate::io::ascii("number"@), OP_NUMBER, n_0, self@.mem.len() as int);
            lemma_below_weaken(self@.mem, crate::io::ascii(">cfa"@), OP_TO_CFA, n_0, self@.mem.len() as int);
            lemma_below_weaken(self@.mem, crate::io::ascii("["@), OP_L_BRACKET, n_0, self@.mem.len() as int);
            lemma_below_weaken(self@.mem, crate::io::ascii("]"@), OP_R_BRACKET, n_0, self@.mem.len() as int);
            lemma_below_weaken(self@.mem, crate::io::ascii("create"@), OP_CREATE, n_0, self@.mem.len() as int);
            lemma_below_weaken(self@.mem, crate::io::ascii(","@), OP_COMMA, n_0, self@.mem.len() as int);
            lemma_below_weaken(self@.mem, crate::io::ascii("c,"@), OP_C_COMMA, n_0, self@.mem.len() as int);
            lemma_below_weaken(self@.mem, crate::io::ascii("immediate"@), OP_IMMEDIATE, n_1, self@.mem.len() as int);
            lemma_below_weaken(self@.mem, crate::io::ascii("hidden"@), OP_HIDDEN, n_1, self@.mem.len() as int);
            lemma_below_weaken(self@.mem, crate::io::ascii("execute"@), OP_EXECUTE, n_1, self@.mem.len() as int);
            lemma_below_weaken(self@.mem, crate::io::ascii("branch"@), OP_BRANCH, n_1, self@.mem.len() as int);
            lemma_below_weaken(self@.mem, crate::io::ascii("0branch"@), OP_BRANCH_IF_ZERO, n_1, self@.mem.len() as int);
            lemma_below_weaken(self@.mem, crate::io::ascii("exit"@), OP_EXIT, n_1, self@.mem.len() as int);
            lemma_below_weaken(self@.mem, crate::io::ascii("reset"@), OP_RESET, n_1, self@.mem.len() as int);
            lemma_below_weaken(self@.mem, crate::io::ascii("prompt"@), OP_PROMPT, n_1, self@.mem.len() as int);
            lemma_below_weaken(self@.mem, crate::io::ascii("interpret"@), OP_INTERPRET, n_1, self@.mem.len() as int);
            lemma_below_weaken(self@.mem, crate::io::ascii("litstring"@), OP_LIT_STRING, n_1, self@.mem.len() as int);
            lemma_below_weaken(self@.mem, crate::io::ascii("'"@), OP_TICK, n_1, self@.mem.len() as int);
            lemma_imm_weaken(self@.mem, crate::io::ascii("immediate"@), OP_IMMEDIATE, n_1, self@.mem.len() as int);
        }
        (
            readers.0,
            readers.1,
            readers.2,
            readers.3,
            readers.4,
            readers.5,
            drivers.0,
            drivers.1,
            drivers.2,
            drivers.3,
            drivers.4,
            drivers.5,
        )
    }

    /// Boot stage: every primitive word of the required set.
    #[verifier::rlimit(100)]
    fn init_words(&mut self) -> (xts: (u32, u32, u32, u32, u32, u32, u32, u32, u32, u32, u32, u32, u32, u32, u32))
        requires
            old(self).wf(),
            old(self)@.mem.len() <= 4096,
            old(self)@.mem.len() <= here_of(old(self)@.mem) <= old(self)@.mem.len() + 3,
            latest_of(old(self)@.mem) == 0 || latest_of(old(self)@.mem) + 4 < old(self)@.mem.len(),
        ensures
            final(self).wf(),
            final(self)@ == (VMView { mem: final(self)@.mem, ..old(self)@ }),
            final(self)@.mem.len() == here_of(final(self)@.mem),
            old(self)@.mem.len() <= final(self)@.mem.len() <= old(self)@.mem.len() + 32768,
            latest_of(final(self)@.mem) + 4 < final(self)@.mem.len(),
            48 <= latest_of(final(self)@.mem),
            prims_below(final(self)@.mem, final(self)@.mem.len() as int),
            (forall|nm: Seq<u8>, o: u8, bound: int|
                bound <= old(self)@.mem.len() && dict_word_below(old(self)@.mem, nm, o, bound)
                    ==> #[trigger] dict_word_below(final(self)@.mem, nm, o, bound)),
            (forall|nm: Seq<u8>, o: u8, bound: int|
                bound <= old(self)@.mem.len() && dict_imm_below(old(self)@.mem, nm, o, bound)
                    ==> #[trigger] dict_imm_below(final(self)@.mem, nm, o, bound)),
            (forall|j: int|
                48 <= j < old(self)@.mem.len() ==> #[trigger] final(self)@.mem[j]
                    == old(self)@.mem[j]),
            base_of(final(self)@.mem) == base_of(old(self)@.mem),
            state_of(final(self)@.mem) == state_of(old(self)@.mem),
            48 <= xts.0 < final(self)@.mem.len(),
            final(self)@.mem[xts.0 as int] == OP_LIT,
            48 <= xts.10 < final(self)@.mem.len(),
            final(self)@.mem[xts.10 as int] == OP_BRANCH,
            48 <= xts.12 < final(self)@.mem.len(),
            final(self)@.mem[xts.12 as int] == OP_RESET,
            48 <= xts.13 < final(self)@.mem.len(),
            final(self)@.mem[xts.13 as int] == OP_PROMPT,
            48 <= xts.14 < final(self)@.mem.len(),
            final(self)@.mem[xts.14 as int] == OP_INTERPRET,
    {
        let ops = self.init_words_operators();
        let ghost n_0: int = self@.mem.len() as int;
        let devs = self.init_words_devices();
        let ghost n_1: int = self@.mem.len() as int;
        proof {
            lemma_below_weaken(self@.mem, crate::io::ascii("lit"@), OP_LIT, n_0, self@.mem.len() as int);
            lemma_below_weaken(self@.mem, crate::io::ascii("dup"@), OP_DUP, n_0, self@.mem.len() as int);
            lemma_below_weaken(self@.mem, crate::io::ascii("drop"@), OP_DROP, n_0, self@.mem.len() as int);
            lemma_below_weaken(self@.mem, crate::io::ascii("swap"@), OP_SWAP, n_0, self@.mem.len() as int);
            lemma_below_weaken(self@.mem, crate::io::ascii("depth"@), OP_DEPTH, n_0, self@.mem.len() as int);
            lemma_below_weaken(self@.mem, crate::io::ascii(">r"@), OP_TO_R, n_0, self@.mem.len() as int);
            lemma_below_weaken(self@.mem, crate::io::ascii("r>"@), OP_FROM_R, n_0, self@.mem.len() as int);
            lemma_below_weaken(self@.mem, crate::io::ascii("@"@), OP_FETCH, n_0, self@.mem.len() as int);
            lemma_below_weaken(self@.mem, crate::io::ascii("c@"@), OP_C_FETCH, n_0, self@.mem.len() as int);
            lemma_below_weaken(self@.mem, crate::io::ascii("!"@), OP_STORE, n_0, self@.mem.len() as int);
            lemma_below_weaken(self@.mem, crate::io::ascii("align"@), OP_ALIGN, n_0, self@.mem.len() as int);
            lemma_below_weaken(self@.mem, crate::io::ascii("c!"@), OP_C_STORE, n_0, self@.mem.len() as int);
            lemma_below_weaken(self@.mem, crate::io::ascii("+"@), OP_ADD, n_0, self@.mem.len() as int);
            lemma_below_weaken(self@.mem, crate::io::ascii("-"@), OP_SUBTRACT, n_0, self@.mem.len() as int);
            lemma_below_weaken(self@.mem, crate::io::ascii("*"@), OP_MULTIPLY, n_0, self@.mem.len() as int);
            lemma_below_weaken(self@.mem, crate::io::ascii("/mod"@), OP_DIV_MOD, n_0, self@.mem.len() as int);
            lemma_below_weaken(self@.mem, crate::io::ascii("="@), OP_EQUALS, n_0, self@.mem.len() as int);
            lemma_below_weaken(self@.mem, crate::io::ascii("<"@), OP_LESS_THAN, n_0, self@.mem.len() as int);
            lemma_below_weaken(self@.mem, crate::io::ascii(">"@), OP_GREATER_THAN, n_0, self@.mem.len() as int);
            lemma_below_weaken(self@.mem, crate::io::ascii("and"@), OP_AND, n_0, self@.mem.len() as int);
            lemma_below_weaken(self@.mem, crate::io::ascii("or"@), OP_OR, n_0, self@.mem.len() as int);
            lemma_below_weaken(self@.mem, crate::io::ascii("xor"@), OP_XOR, n_0, self@.mem.len() as int);
            lemma_below_weaken(self@.mem, crate::io::ascii("invert"@), OP_INVERT, n_0, self@.mem.len() as int);
            lemma_below_weaken(self@.mem, crate::io::ascii("key"@), OP_KEY, n_1, self@.mem.len() as int);
            lemma_below_weaken(self@.mem, crate::io::ascii("word"@), OP_WORD, n_1, self@.mem.len() as int);
            lemma_below_weaken(self@.mem, crate::io::ascii("emit"@), OP_EMIT, n_1, self@.mem.len() as int);
            lemma_below_weaken(self@.mem, crate::io::ascii("find"@), OP_FIND, n_1, self@.mem.len() as int);
            lemma_below_weaken(self@.mem, crate::io::ascii("number"@), OP_NUMBER, n_1, self@.mem.len() as int);
            lemma_below_weaken(self@.mem, crate::io::ascii(">cfa"@), OP_TO_CFA, n_1, self@.mem.len() as int);
            lemma_below_weaken(self@.mem, crate::io::ascii("["@), OP_L_BRACKET, n_1, self@.mem.len() as int);
            lemma_below_weaken(self@.mem, crate::io::ascii("]"@), OP_R_BRACKET, n_1, self@.mem.len() as int);
            lemma_below_weaken(self@.mem, crate::io::ascii("create"@), OP_CREATE, n_1, self@.mem.len() as int);
            lemma_below_weaken(self@.mem, crate::io::ascii(","@), OP_COMMA, n_1, self@.mem.len() as int);
            lemma_below_weaken(self@.mem, crate::io::ascii("c,"@), OP_C_COMMA, n_1, self@.mem.len() as int);
            lemma_below_weaken(self@.mem, crate::io::ascii("immediate"@), OP_IMMEDIATE, n_1, self@.mem.len() as int);
            lemma_below_weaken(self@.mem, crate::io::ascii("hidden"@), OP_HIDDEN, n_1, self@.mem.len() as int);
            lemma_below_weaken(self@.mem, crate::io::ascii("execute"@), OP_EXECUTE, n_1, self@.mem.len() as int);
            lemma_below_weaken(self@.mem, crate::io::ascii("branch"@), OP_BRANCH, n_1, self@.mem.len() as int);
            lemma_below_weaken(self@.mem, crate::io::ascii("0branch"@), OP_BRANCH_IF_ZERO, n_1, self@.mem.len() as int);
            lemma_below_weaken(self@.mem, crate::io::ascii("exit"@), OP_EXIT, n_1, self@.mem.len() as int);
            lemma_below_weaken(self@.mem, crate::io::ascii("reset"@), OP_RESET, n_1, self@.mem.len() as int);
            lemma_below_weaken(self@.mem, crate::io::ascii("prompt"@), OP_PROMPT, n_1, self@.mem.len() as int);
            lemma_below_weaken(self@.mem, crate::io::ascii("interpret"@), OP_INTERPRET, n_1, self@.mem.len() as int);
            lemma_below_weaken(self@.mem, crate::io::ascii("litstring"@), OP_LIT_STRING, n_1, self@.mem.len() as int);
            lemma_below_weaken(self@.mem, crate::io::ascii("'"@), OP_TICK, n_1, self@.mem.len() as int);
            lemma_imm_weaken(self@.mem, crate::io::ascii("immediate"@), OP_IMMEDIATE, n_1, self@.mem.len() as int);
            reveal(prims_below);
            assert(prims_below(self@.mem, self@.mem.len() as int));
        }
        (
            ops.0,
            ops.1,
            ops.2,
            devs.0,
            devs.1,
            devs.2,
            devs.3,
            devs.4,
            devs.5,
            devs.6,
            devs.7,
            devs.8,
            devs.9,
            devs.10,
            devs.11,
        )
    }

    /// Boot, last act: the colon-coded variable words, `:`, `;`
    /// (immediate) and the `quit` loop, which becomes the entry point.
    #[verifier::rlimit(100)]
    fn init_colon_words(
        &mut self,
        lit: u32,
        fetch: u32,
        align_xt: u32,
        word_xt: u32,
        lbracket: u32,
        rbracket: u32,
        create_xt: u32,
        comma: u32,
        ccomma: u32,
        hidden_xt: u32,
        branch_xt: u32,
        exit_xt: u32,
        reset_xt: u32,
        prompt_xt: u32,
        interpret_xt: u32,
    )
        requires
            old(self).wf(),
            old(self)@.mem.len() <= 65536,
            old(self)@.mem.len() <= here_of(old(self)@.mem) <= old(self)@.mem.len() + 3,
            latest_of(old(self)@.mem) == 0 || latest_of(old(self)@.mem) + 4 < old(self)@.mem.len(),
        ensures
            final(self).wf(),
            final(self)@ == (VMView {
                mem: final(self)@.mem,
                pc: final(self)@.pc,
                entry: final(self)@.entry,
                ..old(self)@
            }),
            final(self)@.pc == final(self)@.entry,
            old(self)@.mem.len() <= final(self)@.mem.len(),
            dict_word_below(
                final(self)@.mem,
                crate::io::ascii("base"@),
                0,
                final(self)@.mem.len() as int,
            ),
            dict_word_below(
                final(self)@.mem,
                crate::io::ascii("here"@),
                0,
                final(self)@.mem.len() as int,
            ),
            dict_word_below(
                final(self)@.mem,
                crate::io::ascii("latest"@),
                0,
                final(self)@.mem.len() as int,
            ),
            dict_word_below(
                final(self)@.mem,
                crate::io::ascii("state"@),
                0,
                final(self)@.mem.len() as int,
            ),
            dict_word_below(
                final(self)@.mem,
                crate::io::ascii(":"@),
                0,
                final(self)@.mem.len() as int,
            ),
            dict_word_below(
                final(self)@.mem,
                crate::io::ascii(";"@),
                0,
                final(self)@.mem.len() as int,
            ),
            dict_word_below(
                final(self)@.mem,
                crate::io::ascii("quit"@),
                0,
                final(self)@.mem.len() as int,
            ),
            dict_imm_below(final(self)@.mem, crate::io::ascii(";"@), 0, final(self)@.mem.len() as int),
            (forall|nm: Seq<u8>, o: u8, bound: int|
                bound <= old(self)@.mem.len() && dict_word_below(old(self)@.mem, nm, o, bound)
                    ==> #[trigger] dict_word_below(final(self)@.mem, nm, o, bound)),
            (forall|nm: Seq<u8>, o: u8, bound: int|
                bound <= old(self)@.mem.len() && dict_imm_below(old(self)@.mem, nm, o, bound)
                    ==> #[trigger] dict_imm_below(final(self)@.mem, nm, o, bound)),
            (forall|j: int|
                48 <= j < old(self)@.mem.len() ==> #[trigger] final(self)@.mem[j]
                    == old(self)@.mem[j]),
            base_of(final(self)@.mem) == base_of(old(self)@.mem),
            state_of(final(self)@.mem) == state_of(old(self)@.mem),
            final(self)@.entry % 4 == 0,
            final(self)@.entry as int + 20 <= final(self)@.mem.len(),
            le32_at(final(self)@.mem, final(self)@.entry as int) == reset_xt,
            le32_at(final(self)@.mem, final(self)@.entry as int + 4) == prompt_xt,
            le32_at(final(self)@.mem, final(self)@.entry as int + 8) == interpret_xt,
            le32_at(final(self)@.mem, final(self)@.entry as int + 12) == branch_xt,
            le32_at(final(self)@.mem, final(self)@.entry as int + 16) == 0xFFFF_FFF4u32,
    {
        self.boot_words_cells_a(lit, exit_xt);
        let ghost p_0c: int = self@.mem.len() as int;
        let latest_xt = self.boot_words_cells_b(lit, exit_xt);
        let ghost p_1: int = self@.mem.len() as int;
        self.boot_word_colon(
            lit,
            fetch,
            align_xt,
            word_xt,
            rbracket,
            create_xt,
            ccomma,
            hidden_xt,
            exit_xt,
            latest_xt,
        );
        let ghost p_2: int = self@.mem.len() as int;
        self.boot_word_semicolon(lit, fetch, lbracket, comma, hidden_xt, exit_xt, latest_xt);
        let ghost p_3: int = self@.mem.len() as int;
        self.boot_words_quit(reset_xt, prompt_xt, interpret_xt, branch_xt);
        let ghost p_4: int = self@.mem.len() as int;
        proof {
            lemma_below_weaken(self@.mem, crate::io::ascii("base"@), 0, p_0c, self@.mem.len() as int);
            lemma_below_weaken(self@.mem, crate::io::ascii("here"@), 0, p_0c, self@.mem.len() as int);
            lemma_below_weaken(self@.mem, crate::io::ascii("latest"@), 0, p_1, self@.mem.len() as int);
            lemma_below_weaken(self@.mem, crate::io::ascii("state"@), 0, p_1, self@.mem.len() as int);
            lemma_below_weaken(self@.mem, crate::io::ascii(":"@), 0, p_2, self@.mem.len() as int);
            lemma_below_weaken(self@.mem, crate::io::ascii(";"@), 0, p_3, self@.mem.len() as int);
            lemma_below_weaken(self@.mem, crate::io::ascii("quit"@), 0, p_4, self@.mem.len() as int);
            lemma_imm_weaken(self@.mem, crate::io::ascii(";"@), 0, p_3, self@.mem.len() as int);
        }
    }

    /// Populate a fresh image with every primitive word of the required
    /// set, the colon-coded variable words, `:`, `;` (immediate) and
    /// `quit`, and point the machine at the `quit` loop: every such word is
    /// then defined, findable and non-hidden, with the right opcode at its
    /// code field; the `lit` field holds the execution token of `lit`; the
    /// entry point holds the threaded quit body; and `BASE`, `STATE`, the
    /// stacks and the streams stand as they were.
    #[verifier::rlimit(100)]
    pub fn init(&mut self)
        requires
            old(self).wf(),
            old(self)@.mem.len() <= 4096,
            old(self)@.mem.len() <= here_of(old(self)@.mem) <= old(self)@.mem.len() + 3,
            latest_of(old(self)@.mem) == 0 || latest_of(old(self)@.mem) + 4 < old(self)@.mem.len(),
        ensures
            final(self).wf(),
            final(self)@ == (VMView {
                mem: final(self)@.mem,
                pc: final(self)@.pc,
                entry: final(self)@.entry,
                lit: final(self)@.lit,
                ..old(self)@
            }),
            final(self)@.pc == final(self)@.entry,
            base_of(final(self)@.mem) == base_of(old(self)@.mem),
            state_of(final(self)@.mem) == state_of(old(self)@.mem),
            boot_dictionary(final(self)@.mem),
            final(self)@.lit < final(self)@.mem.len(),
            final(self)@.mem[final(self)@.lit as int] == OP_LIT,
            final(self)@.entry % 4 == 0,
            final(self)@.entry as int + 20 <= final(self)@.mem.len(),
            le32_at(final(self)@.mem, final(self)@.entry as int + 16) == 0xFFFF_FFF4u32,
            le32_at(final(self)@.mem, final(self)@.entry as int) < final(self)@.mem.len(),
            final(self)@.mem[le32_at(final(self)@.mem, final(self)@.entry as int) as int]
                == OP_RESET,
            le32_at(final(self)@.mem, final(self)@.entry as int + 4) < final(self)@.mem.len(),
            final(self)@.mem[le32_at(final(self)@.mem, final(self)@.entry as int + 4) as int]
                == OP_PROMPT,
            le32_at(final(self)@.mem, final(self)@.entry as int + 8) < final(self)@.mem.len(),
            final(self)@.mem[le32_at(final(self)@.mem, final(self)@.entry as int + 8) as int]
                == OP_INTERPRET,
            le32_at(final(self)@.mem, final(self)@.entry as int + 12) < final(self)@.mem.len(),
            final(self)@.mem[le32_at(final(self)@.mem, final(self)@.entry as int + 12) as int]
                == OP_BRANCH,
    {
        let xts = self.init_words();
        let ghost p_0: int = self@.mem.len() as int;
        self.lit = xts.0;
        let ghost pre_colon = self@.mem;
        self.init_colon_words(
            xts.0,
            xts.1,
            xts.2,
            xts.3,
            xts.4,
            xts.5,
            xts.6,
            xts.7,
            xts.8,
            xts.9,
            xts.10,
            xts.11,
            xts.12,
            xts.13,
            xts.14,
        );
        proof {
            lemma_prims_transport(pre_colon, self@.mem, p_0, p_0);
            lemma_boot_dictionary(self@.mem, p_0);
            assert(self@.mem[xts.0 as int] == OP_LIT);
            assert(self@.mem[xts.10 as int] == OP_BRANCH);
            assert(self@.mem[xts.12 as int] == OP_RESET);
            assert(self@.mem[xts.13 as int] == OP_PROMPT);
            assert(self@.mem[xts.14 as int] == OP_INTERPRET);
        }
    }

    /// Point the driver's entry and the program counter at the body of the
    /// colon word whose execution token this is.
    pub fn set_entry_point(&mut self, xt: u32)
        requires
            old(self).wf(),
            xt < old(self)@.mem.len(),
            old(self)@.mem[xt as int] == 0,
        ensures
            final(self).wf(),
            final(self)@ == (VMView {
                entry: align_up(wadd(xt, 1)),
                pc: align_up(wadd(xt, 1)),
                ..old(self)@
            }),
    {
        let a = align_addr(xt.wrapping_add(1));
        self.entry = a;
        self.pc = a;
    }
}

} // verus!
