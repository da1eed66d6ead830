//! Unsigned LEB128 varints: the length prefixes of the container format.

use vstd::prelude::*;

verus! {

/// Canonical unsigned LEB128 encoding of `n`: low-order seven-bit groups
/// first, continuation bit set on every byte but the last.
pub open spec fn leb_bytes(n: nat) -> Seq<u8>
    decreases n,
{
    if n < 0x80 {
        seq![n as u8]
    } else {
        seq![(0x80 + n % 0x80) as u8] + leb_bytes(n / 0x80)
    }
}

/// Value denoted by a sequence of seven-bit groups, low-order group first,
/// continuation bits ignored.
pub open spec fn leb_value(s: Seq<u8>) -> nat
    decreases s.len(),
{
    if s.len() == 0 {
        0
    } else {
        (s[0] % 0x80) as nat + 0x80 * leb_value(s.drop_first())
    }
}

/// The bytes form one complete LEB128 item: every byte but the last carries
/// the continuation bit, and the last one does not.
pub open spec fn is_leb_shape(s: Seq<u8>) -> bool {
    &&& s.len() >= 1
    &&& s[s.len() - 1] < 0x80
    &&& forall|i: int| 0 <= i < s.len() - 1 ==> s[i] >= 0x80
}

/// A LEB128 item admissible as a 32-bit unsigned integer: at most five
/// bytes, and a fifth byte contributes no bits beyond the thirty-second.
pub open spec fn is_leb_u32(s: Seq<u8>) -> bool {
    &&& is_leb_shape(s)
    &&& s.len() <= 5
    &&& (s.len() == 5 ==> s[4] < 0x10)
}

/// End position (exclusive) of the LEB128 item starting at `pos`: one past
/// the first byte without the continuation bit, if there is one.
pub open spec fn leb_end(s: Seq<u8>, pos: int) -> Option<int>
    decreases s.len() - pos,
{
    if pos < 0 || pos >= s.len() {
        None
    } else if s[pos] < 0x80 {
        Some(pos + 1)
    } else {
        leb_end(s, pos + 1)
    }
}

/// Decoding one 32-bit length at `pos`: the value and the end position.
pub open spec fn leb_item(s: Seq<u8>, pos: int) -> Option<(u32, int)> {
    match leb_end(s, pos) {
        None => None,
        Some(e) => if is_leb_u32(s.subrange(pos, e)) {
            Some((leb_value(s.subrange(pos, e)) as u32, e))
        } else {
            None
        },
    }
}

/// The k-th power of 128: the weight of the k-th seven-bit group.
pub open spec fn pow128(k: nat) -> nat
    decreases k,
{
    if k == 0 {
        1
    } else {
        0x80 * pow128((k - 1) as nat)
    }
}

pub proof fn lemma_pow128_values()
    ensures
        pow128(0) == 1,
        pow128(1) == 0x80,
        pow128(2) == 0x4000,
        pow128(3) == 0x200000,
        pow128(4) == 0x10000000,
        pow128(5) == 0x800000000,
{
    assert(pow128(0) == 1);
    assert(pow128(1) == 0x80);
    assert(pow128(2) == 0x4000);
    assert(pow128(3) == 0x200000);
    assert(pow128(4) == 0x10000000);
    assert(pow128(5) == 0x800000000);
}

pub proof fn lemma_pow128_pos(k: nat)
    ensures
        pow128(k) >= 1,
    decreases k,
{
    if k > 0 {
        lemma_pow128_pos((k - 1) as nat);
    }
}

pub proof fn lemma_pow128_le(a: nat, b: nat)
    requires
        a <= b,
    ensures
        pow128(a) <= pow128(b),
    decreases b,
{
    if a < b {
        lemma_pow128_le(a, (b - 1) as nat);
        lemma_pow128_pos((b - 1) as nat);
        assert(pow128(b) == 0x80 * pow128((b - 1) as nat));
        assert(pow128((b - 1) as nat) <= 0x80 * pow128((b - 1) as nat)) by (nonlinear_arith)
            requires
                pow128((b - 1) as nat) >= 1,
        ;
    }
}

/// `leb_end` finds the first byte at or after `pos` without the
/// continuation bit.
pub proof fn lemma_leb_end_props(s: Seq<u8>, pos: int)
    requires
        0 <= pos <= s.len(),
    ensures
        match leb_end(s, pos) {
            Some(e) => {
                &&& pos < e <= s.len()
                &&& s[e - 1] < 0x80
                &&& forall|j: int| pos <= j < e - 1 ==> s[j] >= 0x80
            },
            None => forall|j: int| pos <= j < s.len() ==> s[j] >= 0x80,
        },
    decreases s.len() - pos,
{
    if pos < s.len() && s[pos] >= 0x80 {
        lemma_leb_end_props(s, pos + 1);
    }
}

/// If the bytes in `[pos, e)` are an item in shape, `leb_end` finds
/// exactly `e`.
pub proof fn lemma_leb_end_of_shape(s: Seq<u8>, pos: int, e: int)
    requires
        0 <= pos < e <= s.len(),
        is_leb_shape(s.subrange(pos, e)),
    ensures
        leb_end(s, pos) == Some(e),
    decreases e - pos,
{
    let item = s.subrange(pos, e);
    if e == pos + 1 {
        assert(s[pos] == item[0]);
    } else {
        assert(s[pos] == item[0]);
        assert(item[0] >= 0x80);
        assert(s.subrange(pos + 1, e) =~= item.subrange(1, item.len() as int));
        assert(is_leb_shape(s.subrange(pos + 1, e)));
        lemma_leb_end_of_shape(s, pos + 1, e);
    }
}

/// A decoded item sits strictly between `pos` and the end of the buffer.
pub proof fn lemma_leb_item_bounds(s: Seq<u8>, pos: int)
    requires
        0 <= pos <= s.len(),
    ensures
        match leb_item(s, pos) {
            Some((n, e)) => pos < e <= s.len(),
            None => true,
        },
{
    lemma_leb_end_props(s, pos);
}

/// The value of a group sequence is below the weight of the next group.
pub proof fn lemma_leb_value_bound(s: Seq<u8>)
    ensures
        leb_value(s) < pow128(s.len()),
    decreases s.len(),
{
    if s.len() == 0 {
    } else {
        let rest = s.drop_first();
        lemma_leb_value_bound(rest);
        assert((s[0] % 0x80) as nat + 0x80 * leb_value(rest) < 0x80 * pow128(rest.len()))
            by (nonlinear_arith)
            requires
                leb_value(rest) < pow128(rest.len()),
                s[0] % 0x80 < 0x80,
        ;
    }
}

/// Splitting a group sequence splits its value at the matching weight.
pub proof fn lemma_leb_value_split(s: Seq<u8>, i: int)
    requires
        0 <= i <= s.len(),
    ensures
        leb_value(s) == leb_value(s.subrange(0, i)) + pow128(i as nat) * leb_value(
            s.subrange(i, s.len() as int),
        ),
    decreases i,
{
    if i == 0 {
        assert(s.subrange(0, 0).len() == 0);
        assert(leb_value(s.subrange(0, 0)) == 0);
        assert(pow128(0) == 1);
        assert(s.subrange(0, s.len() as int) =~= s);
        assert(leb_value(s) == 0 + 1 * leb_value(s.subrange(0, s.len() as int)));
    } else {
        let rest = s.drop_first();
        lemma_leb_value_split(rest, i - 1);
        assert(s.subrange(0, i).drop_first() =~= rest.subrange(0, i - 1));
        assert(s.subrange(i, s.len() as int) =~= rest.subrange(i - 1, rest.len() as int));
        let low = leb_value(rest.subrange(0, i - 1));
        let high = leb_value(rest.subrange(i - 1, rest.len() as int));
        assert(s.subrange(0, i).len() >= 1 && s.subrange(0, i)[0] == s[0]);
        assert(leb_value(s.subrange(0, i)) == (s[0] % 0x80) as nat + 0x80 * low);
        assert(leb_value(s) == (s[0] % 0x80) as nat + 0x80 * leb_value(rest));
        assert(leb_value(rest) == low + pow128((i - 1) as nat) * high);
        assert(0x80 * (low + pow128((i - 1) as nat) * high) == 0x80 * low + (0x80 * pow128(
            (i - 1) as nat,
        )) * high) by (nonlinear_arith);
        assert(pow128(i as nat) == 0x80 * pow128((i - 1) as nat));
    }
}

/// An item admissible as a 32-bit length denotes a value below `2^32`.
pub proof fn lemma_leb_u32_value(s: Seq<u8>)
    requires
        is_leb_u32(s),
    ensures
        leb_value(s) < 0x100000000,
{
    lemma_pow128_values();
    if s.len() <= 4 {
        lemma_leb_value_bound(s);
        lemma_pow128_le(s.len(), 4);
    } else {
        lemma_leb_value_split(s, 4);
        lemma_leb_value_bound(s.subrange(0, 4));
        let tail = s.subrange(4, s.len() as int);
        assert(tail.len() == 1);
        assert(tail[0] == s[4]);
        assert(leb_value(tail) == (tail[0] % 0x80) as nat + 0x80 * leb_value(tail.drop_first()));
        assert(leb_value(tail.drop_first()) == 0);
        assert(leb_value(tail) < 0x10);
        assert(pow128(4) * leb_value(tail) <= 0x10000000 * 0xf) by (nonlinear_arith)
            requires
                pow128(4) == 0x10000000,
                leb_value(tail) <= 0xf,
        ;
    }
}

/// The canonical encoding is in shape, denotes its own value, and fits the
/// 32-bit admissibility bound whenever the value does.
pub proof fn lemma_leb_bytes_props(n: nat)
    ensures
        is_leb_shape(leb_bytes(n)),
        leb_value(leb_bytes(n)) == n,
        leb_bytes(n).len() >= 1,
        n < 0x80 ==> leb_bytes(n) == seq![n as u8],
    decreases n,
{
    if n < 0x80 {
        let s = leb_bytes(n);
        assert(s == seq![n as u8]);
        assert(s.drop_first().len() == 0);
        assert(leb_value(s.drop_first()) == 0);
        assert(leb_value(s) == (s[0] % 0x80) as nat + 0x80 * 0);
    } else {
        lemma_leb_bytes_props(n / 0x80);
        let s = leb_bytes(n);
        let rest = leb_bytes(n / 0x80);
        assert(s == seq![(0x80 + n % 0x80) as u8] + rest);
        assert(s.drop_first() =~= rest);
        assert(s[s.len() - 1] == rest[rest.len() - 1]);
        assert forall|i: int| 0 <= i < s.len() - 1 implies s[i] >= 0x80 by {
            if i > 0 {
                assert(s[i] == rest[i - 1]);
            }
        }
        assert(s[0] == (0x80 + n % 0x80) as u8);
        assert((s[0] % 0x80) as nat == n % 0x80);
        assert(leb_value(s) == n % 0x80 + 0x80 * (n / 0x80));
        assert(n % 0x80 + 0x80 * (n / 0x80) == n) by (nonlinear_arith);
    }
}

/// The canonical encoding of a value below `pow128(k)` takes at most `k`
/// bytes.
pub proof fn lemma_leb_bytes_len(n: nat, k: nat)
    requires
        n < pow128(k),
        k >= 1,
    ensures
        leb_bytes(n).len() <= k,
    decreases k,
{
    lemma_pow128_values();
    if n < 0x80 {
    } else {
        if k == 1 {
            assert(pow128(1) == 0x80);
        }
        assert(k >= 2);
        assert(pow128(k) == 0x80 * pow128((k - 1) as nat));
        assert(n / 0x80 < pow128((k - 1) as nat)) by (nonlinear_arith)
            requires
                n < 0x80 * pow128((k - 1) as nat),
        ;
        lemma_leb_bytes_len(n / 0x80, (k - 1) as nat);
    }
}

/// The last byte of the canonical encoding is the highest group.
pub proof fn lemma_leb_bytes_last(n: nat)
    ensures
        leb_bytes(n).last() as nat == n / pow128((leb_bytes(n).len() - 1) as nat),
    decreases n,
{
    lemma_leb_bytes_props(n);
    if n < 0x80 {
        assert(pow128(0) == 1);
        assert(leb_bytes(n) == seq![n as u8]);
        assert(n / 1 == n);
    } else {
        lemma_leb_bytes_last(n / 0x80);
        let s = leb_bytes(n);
        let rest = leb_bytes(n / 0x80);
        assert(s == seq![(0x80 + n % 0x80) as u8] + rest);
        assert(s.last() == rest.last());
        assert(s.len() == 1 + rest.len());
        let k = (rest.len() - 1) as nat;
        lemma_pow128_pos(k);
        vstd::arithmetic::div_mod::lemma_div_denominator(n as int, 0x80, pow128(k) as int);
        assert((n / 0x80) / pow128(k) == n / (0x80 * pow128(k)));
        assert(pow128((s.len() - 1) as nat) == 0x80 * pow128(k));
    }
}

/// A value below `2^32` has a canonical encoding admissible as a 32-bit
/// length.
pub proof fn lemma_leb_bytes_u32(n: nat)
    requires
        n < 0x100000000,
    ensures
        is_leb_u32(leb_bytes(n)),
        leb_bytes(n).len() <= 5,
{
    lemma_pow128_values();
    lemma_leb_bytes_props(n);
    lemma_leb_bytes_len(n, 5);
    if leb_bytes(n).len() == 5 {
        lemma_leb_bytes_last(n);
        assert(leb_bytes(n)[4] == leb_bytes(n).last());
        assert(leb_bytes(n).last() as nat == n / pow128(4));
        assert(n / 0x10000000 < 0x10);
    }
}

/// Wherever the canonical bytes of `n` sit in a buffer, decoding at that
/// position yields `n` and consumes exactly those bytes.
pub proof fn lemma_leb_item_at(s: Seq<u8>, pos: int, n: nat)
    requires
        n < 0x100000000,
        0 <= pos,
        pos + leb_bytes(n).len() <= s.len(),
        s.subrange(pos, pos + leb_bytes(n).len()) == leb_bytes(n),
    ensures
        leb_item(s, pos) == Some((n as u32, pos + leb_bytes(n).len())),
{
    lemma_leb_bytes_props(n);
    lemma_leb_bytes_u32(n);
    let e = pos + leb_bytes(n).len();
    lemma_leb_end_of_shape(s, pos, e);
    assert(s.subrange(pos, e) == leb_bytes(n));
    assert(leb_value(s.subrange(pos, e)) == n);
}

/// A decoded item decodes the same wherever its bytes sit in a buffer.
pub proof fn lemma_leb_item_shift(src: Seq<u8>, a: int, dst: Seq<u8>, b: int, n: u32, e: int)
    requires
        0 <= a <= src.len(),
        leb_item(src, a) == Some((n, e)),
        0 <= b,
        b + (e - a) <= dst.len(),
        dst.subrange(b, b + (e - a)) == src.subrange(a, e),
    ensures
        leb_item(dst, b) == Some((n, b + (e - a))),
{
    lemma_leb_end_props(src, a);
    let item = src.subrange(a, e);
    assert(is_leb_u32(item));
    assert(is_leb_shape(item));
    lemma_leb_end_of_shape(dst, b, b + (e - a));
    assert(dst.subrange(b, b + (e - a)) == item);
}

/// A length-prefixed byte string: the canonical LEB128 length, then the
/// bytes themselves.
pub open spec fn lp_bytes(b: Seq<u8>) -> Seq<u8> {
    leb_bytes(b.len()) + b
}

/// Decoding a length-prefixed byte string at `pos`: the bytes and the end
/// position.
pub open spec fn lp_item(s: Seq<u8>, pos: int) -> Option<(Seq<u8>, int)> {
    match leb_item(s, pos) {
        None => None,
        Some((n, e)) => if e + n <= s.len() {
            Some((s.subrange(e, e + n as int), e + n))
        } else {
            None
        },
    }
}

/// Wherever the length-prefixed encoding of `b` sits in a buffer, decoding
/// at that position yields `b` and consumes exactly those bytes.
pub proof fn lemma_lp_item_at(s: Seq<u8>, pos: int, b: Seq<u8>)
    requires
        b.len() < 0x100000000,
        0 <= pos,
        pos + lp_bytes(b).len() <= s.len(),
        s.subrange(pos, pos + lp_bytes(b).len()) == lp_bytes(b),
    ensures
        lp_item(s, pos) == Some((b, pos + lp_bytes(b).len())),
{
    let lb = leb_bytes(b.len());
    lemma_leb_bytes_props(b.len());
    assert(s.subrange(pos, pos + lb.len() as int) =~= lb) by {
        assert forall|j: int| 0 <= j < lb.len() implies s[pos + j] == lb[j] by {
            assert(s.subrange(pos, pos + lp_bytes(b).len())[j] == lp_bytes(b)[j]);
        }
    }
    lemma_leb_item_at(s, pos, b.len());
    let e = pos + lb.len();
    assert(leb_item(s, pos) == Some((b.len() as u32, e)));
    assert(e + (b.len() as u32) as int <= s.len());
    assert(s.subrange(e, e + b.len() as int) =~= b) by {
        assert forall|j: int| 0 <= j < b.len() implies s[e + j] == b[j] by {
            assert(s.subrange(pos, pos + lp_bytes(b).len())[lb.len() + j] == lp_bytes(b)[lb.len()
                + j]);
        }
    }
}

/// Copies `src[start..end]` onto the end of `out`.
pub fn push_range(out: &mut Vec<u8>, src: &[u8], start: usize, end: usize)
    requires
        start <= end <= src@.len(),
    ensures
        final(out)@ == old(out)@ + src@.subrange(start as int, end as int),
{
    let mut j = start;
    while j < end
        invariant
            start <= j <= end <= src@.len(),
            out@ == old(out)@ + src@.subrange(start as int, j as int),
        decreases end - j,
    {
        out.push(src[j]);
        proof {
            assert(src@.subrange(start as int, j + 1) =~= src@.subrange(start as int, j as int)
                + seq![src@[j as int]]);
        }
        j = j + 1;
    }
    proof {
        assert(out@ =~= old(out)@ + src@.subrange(start as int, end as int));
    }
}

/// True exactly when the two byte strings are equal.
pub fn bytes_eq(a: &[u8], b: &[u8]) -> (r: bool)
    ensures
        r == (a@ == b@),
{
    if a.len() != b.len() {
        return false;
    }
    let n = a.len();
    let mut j: usize = 0;
    while j < n
        invariant
            j <= n,
            n == a@.len() && n == b@.len(),
            forall|k: int| 0 <= k < j ==> a@[k] == b@[k],
        decreases n - j,
    {
        if a[j] != b[j] {
            return false;
        }
        j = j + 1;
    }
    proof {
        assert(a@ =~= b@);
    }
    true
}

/// Pushes the length-prefixed encoding of `b` onto `out`.
pub fn encode_lp(out: &mut Vec<u8>, b: &[u8])
    ensures
        final(out)@ == old(out)@ + lp_bytes(b@),
{
    encode_leb_u64(out, b.len() as u64);
    push_range(out, b, 0, b.len());
    proof {
        assert(b@.subrange(0, b@.len() as int) =~= b@);
        assert(out@ =~= old(out)@ + lp_bytes(b@));
    }
}

/// Reads one length-prefixed byte string at `pos`; `None` on a truncated
/// length or content.
pub fn read_lp(bytes: &[u8], pos: usize) -> (r: Option<(Vec<u8>, usize)>)
    requires
        pos <= bytes@.len(),
    ensures
        match r {
            Some((v, e)) => {
                &&& pos < e <= bytes@.len()
                &&& lp_item(bytes@, pos as int) == Some((v@, e as int))
            },
            None => lp_item(bytes@, pos as int) is None,
        },
{
    match read_var_u32(bytes, pos) {
        None => None,
        Some((n, e)) => {
            if n as usize > bytes.len() - e {
                return None;
            }
            let end = e + n as usize;
            let v = vstd::slice::slice_to_vec(vstd::slice::slice_subrange(bytes, e, end));
            Some((v, end))
        },
    }
}

/// Pushes the canonical LEB128 encoding of `n` onto `out`.
pub fn encode_leb_u64(out: &mut Vec<u8>, n: u64)
    ensures
        final(out)@ == old(out)@ + leb_bytes(n as nat),
{
    let mut v: u64 = n;
    while v >= 0x80
        invariant
            out@ + leb_bytes(v as nat) == old(out)@ + leb_bytes(n as nat),
        decreases v,
    {
        proof {
            assert(leb_bytes(v as nat) == seq![(0x80 + (v as nat) % 0x80) as u8] + leb_bytes(
                (v as nat) / 0x80,
            ));
        }
        out.push((0x80 + v % 0x80) as u8);
        v = v / 0x80;
        proof {
            assert(out@ + leb_bytes(v as nat) =~= old(out)@ + leb_bytes(n as nat));
        }
    }
    proof {
        assert(leb_bytes(v as nat) == seq![(v as nat) as u8]);
    }
    out.push(v as u8);
    proof {
        assert(out@ =~= old(out)@ + leb_bytes(n as nat));
    }
}

/// Reads one LEB128-encoded 32-bit length at `pos`; `None` on a truncated,
/// overlong or out-of-range item.
pub fn read_var_u32(bytes: &[u8], pos: usize) -> (r: Option<(u32, usize)>)
    requires
        pos <= bytes@.len(),
    ensures
        match r {
            Some((n, e)) => {
                &&& pos < e <= bytes@.len()
                &&& leb_item(bytes@, pos as int) == Some((n, e as int))
            },
            None => leb_item(bytes@, pos as int) is None,
        },
{
    let ghost s = bytes@;
    let n = bytes.len();
    let mut i: usize = pos;
    let mut value: u32 = 0;
    let mut mult: u32 = 1;
    loop
        invariant
            pos <= i <= n,
            n == s.len(),
            s == bytes@,
            i - pos <= 4,
            mult == pow128((i - pos) as nat),
            value == leb_value(s.subrange(pos as int, i as int)),
            value < pow128((i - pos) as nat),
            is_leb_shape(s.subrange(pos as int, i as int).push(0)),
            leb_end(s, pos as int) == leb_end(s, i as int),
        decreases n - i,
    {
        proof {
            lemma_pow128_values();
        }
        if i >= n {
            proof {
                lemma_leb_end_props(s, i as int);
                assert(leb_end(s, i as int) is None);
            }
            return None;
        }
        let b = bytes[i];
        let ghost done = s.subrange(pos as int, i as int);
        proof {
            assert(s.subrange(pos as int, i + 1) =~= done.push(b));
            lemma_leb_value_split(done.push(b), done.len() as int);
            assert(done.push(b).subrange(0, done.len() as int) =~= done);
            let tail = done.push(b).subrange(done.len() as int, done.len() as int + 1);
            assert(tail.len() == 1 && tail[0] == b);
            assert(leb_value(tail) == (b % 0x80) as nat + 0x80 * leb_value(tail.drop_first()));
            assert(leb_value(tail.drop_first()) == 0);
            assert(leb_value(done.push(b)) == value + pow128((i - pos) as nat) * (
            (b % 0x80) as nat));
        }
        if b < 0x80 {
            // Final byte of the item.
            if i - pos == 4 && b >= 0x10 {
                proof {
                    assert(leb_end(s, i as int) == Some(i + 1));
                    let item = s.subrange(pos as int, i + 1);
                    assert(item.len() == 5 && item[4] == b);
                    assert(!is_leb_u32(item));
                }
                return None;
            }
            proof {
                assert(leb_end(s, i as int) == Some(i + 1));
                let item = s.subrange(pos as int, i + 1);
                assert(item =~= done.push(b));
                assert(item[item.len() - 1] == b);
                assert forall|j: int| 0 <= j < item.len() - 1 implies item[j] >= 0x80 by {
                    assert(done.push(0)[j] == item[j] || j == item.len() - 1);
                    assert(is_leb_shape(done.push(0)));
                }
                assert(is_leb_shape(item));
                assert(is_leb_u32(item));
                lemma_leb_u32_value(item);
                assert((b % 0x80) as nat == b as nat);
                assert(leb_value(item) == value + pow128((i - pos) as nat) * (b as nat));
                if i - pos == 4 {
                    assert(pow128(4) * (b as nat) <= 0x10000000 * 0xf) by (nonlinear_arith)
                        requires
                            pow128(4) == 0x10000000,
                            b < 0x10,
                    ;
                } else {
                    lemma_pow128_le((i - pos) as nat, 3);
                    assert(pow128((i - pos) as nat) * (b as nat) <= 0x200000 * 0x7f)
                        by (nonlinear_arith)
                        requires
                            pow128((i - pos) as nat) <= 0x200000,
                            b <= 0x7f,
                    ;
                }
                lemma_pow128_le((i - pos) as nat, 4);
                if i - pos == 4 {
                    assert((b as nat) * (mult as nat) <= 0xf0000000) by (nonlinear_arith)
                        requires
                            mult == 0x10000000,
                            b < 0x10,
                    ;
                } else {
                    assert((b as nat) * (mult as nat) <= 0x200000 * 0x7f) by (nonlinear_arith)
                        requires
                            mult <= 0x200000,
                            b <= 0x7f,
                    ;
                }
                assert(value < 0x10000000);
            }
            let add = (b as u32) * mult;
            let result = value + add;
            proof {
                assert(add as nat == pow128((i - pos) as nat) * ((b % 0x80) as nat))
                    by (nonlinear_arith)
                    requires
                        mult == pow128((i - pos) as nat),
                        b < 0x80,
                        add == (b as nat) * (mult as nat),
                ;
                assert(leb_value(s.subrange(pos as int, i + 1)) == result);
            }
            return Some((result, i + 1));
        } else {
            if i - pos == 4 {
                // A sixth byte would follow: not admissible as a 32-bit length.
                proof {
                    lemma_leb_end_props(s, pos as int);
                    match leb_end(s, pos as int) {
                        Some(e) => {
                            assert(leb_end(s, i as int) == Some(e));
                            lemma_leb_end_props(s, i as int);
                            assert(e > i + 1 || (e == i + 1 && s[e - 1] >= 0x80));
                            assert(e - pos > 5);
                            assert(s.subrange(pos as int, e).len() > 5);
                            assert(!is_leb_u32(s.subrange(pos as int, e)));
                        },
                        None => {},
                    }
                }
                return None;
            }
            proof {
                assert((b % 0x80) < 0x80);
                lemma_pow128_le((i - pos) as nat, 3);
                assert(pow128((i - pos) as nat) * ((b % 0x80) as nat) <= 0x200000 * 0x7f)
                    by (nonlinear_arith)
                    requires
                        pow128((i - pos) as nat) <= 0x200000,
                        (b % 0x80) <= 0x7f,
                ;
                assert(pow128((i + 1 - pos) as nat) == 0x80 * pow128((i - pos) as nat));
                assert(value + pow128((i - pos) as nat) * ((b % 0x80) as nat) < pow128(
                    (i + 1 - pos) as nat,
                )) by (nonlinear_arith)
                    requires
                        value < pow128((i - pos) as nat),
                        (b % 0x80) <= 0x7f,
                        pow128((i + 1 - pos) as nat) == 0x80 * pow128((i - pos) as nat),
                ;
                assert(((b % 0x80) as nat) * (mult as nat) == pow128((i - pos) as nat) * (
                (b % 0x80) as nat)) by (nonlinear_arith)
                    requires
                        mult == pow128((i - pos) as nat),
                ;
            }
            value = value + ((b % 0x80) as u32) * mult;
            mult = mult * 0x80;
            let ghost old_i = i as int;
            i = i + 1;
            proof {
                assert(is_leb_shape(s.subrange(pos as int, i as int).push(0))) by {
                    let item = s.subrange(pos as int, i as int).push(0);
                    assert forall|j: int| 0 <= j < item.len() - 1 implies item[j] >= 0x80 by {
                        if j < item.len() - 2 {
                            assert(item[j] == done.push(0)[j]);
                        } else {
                            assert(item[j] == b);
                        }
                    }
                }
                assert(leb_end(s, old_i) == leb_end(s, i as int));
            }
        }
    }
}

} // verus!
