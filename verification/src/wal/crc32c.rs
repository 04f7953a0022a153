//! CRC32C (Castagnoli) engine.
//!
//! The mathematical model is the bit-serial division: seed the 32-bit
//! register with all ones, fold every input byte in bit by bit with the
//! reflected polynomial, and complement the register at the end.  Every
//! implementation in this module — the bit-serial reference, the
//! byte-at-a-time table, the slicing-by-N variants and the incremental
//! engine — is proved to return exactly that function of its input.

use vstd::prelude::*;

verus! {

/// CRC32C (Castagnoli) polynomial in reflected form: input bits are
/// consumed least-significant-first, so the register shifts right.
pub const CRC32C_POLYNOMIAL: u32 = 0x82f63b78;

/// Seed of the running register.
pub const CRC32C_INIT: u32 = 0xffffffff;

/// One bit of the division: shift the register right, folding the
/// polynomial back in when a one bit falls off the end.
pub open spec fn crc_step(c: u32) -> u32 {
    if c & 1 == 1 {
        (c >> 1) ^ CRC32C_POLYNOMIAL
    } else {
        c >> 1
    }
}

/// `n` bit steps.
pub open spec fn crc_step_n(c: u32, n: nat) -> u32
    decreases n,
{
    if n == 0 {
        c
    } else {
        crc_step(crc_step_n(c, (n - 1) as nat))
    }
}

/// Eight bit steps, written out in full so that the bit-vector prover
/// can unfold it.
pub open spec fn crc_step8(c: u32) -> u32 {
    crc_step(crc_step(crc_step(crc_step(crc_step(crc_step(crc_step(crc_step(c))))))))
}

/// The register after absorbing `n` zero bytes.
pub open spec fn crc_shift_bytes(c: u32, n: nat) -> u32
    decreases n,
{
    if n == 0 {
        c
    } else {
        crc_shift_bytes(crc_step8(c), (n - 1) as nat)
    }
}

/// Feed one byte into the register.
pub open spec fn crc_push(c: u32, b: u8) -> u32 {
    crc_step8(c ^ (b as u32))
}

/// Fold a whole byte sequence into the register.
pub open spec fn crc_fold(c: u32, s: Seq<u8>) -> u32
    decreases s.len(),
{
    if s.len() == 0 {
        c
    } else {
        crc_fold(crc_push(c, s[0]), s.skip(1))
    }
}

/// The CRC32C checksum of a byte sequence: seed all ones, fold the
/// bytes, complement.  This is the one function that every
/// implementation below is held to.
pub open spec fn crc32c_spec(s: Seq<u8>) -> u32 {
    crc_fold(CRC32C_INIT, s) ^ 0xffffffffu32
}

/// Eight unfoldings of `crc_step_n` reach the closed form `crc_step8`.
proof fn lemma_step_n_8(c: u32)
    ensures
        crc_step_n(c, 8) == crc_step8(c),
{
    assert(crc_step_n(c, 0) == c);
    assert(crc_step_n(c, 1) == crc_step(crc_step_n(c, 0)));
    assert(crc_step_n(c, 2) == crc_step(crc_step_n(c, 1)));
    assert(crc_step_n(c, 3) == crc_step(crc_step_n(c, 2)));
    assert(crc_step_n(c, 4) == crc_step(crc_step_n(c, 3)));
    assert(crc_step_n(c, 5) == crc_step(crc_step_n(c, 4)));
    assert(crc_step_n(c, 6) == crc_step(crc_step_n(c, 5)));
    assert(crc_step_n(c, 7) == crc_step(crc_step_n(c, 6)));
    assert(crc_step_n(c, 8) == crc_step(crc_step_n(c, 7)));
}

/// Folding `s.push(b)` is folding `s` and then pushing `b`.
proof fn lemma_fold_snoc(c: u32, s: Seq<u8>, b: u8)
    ensures
        crc_fold(c, s.push(b)) == crc_push(crc_fold(c, s), b),
    decreases s.len(),
{
    if s.len() == 0 {
        assert(crc_fold(c, s) == c);
        assert(s.push(b)[0] == b);
        assert(s.push(b).skip(1) =~= Seq::<u8>::empty());
        assert(crc_fold(c, s.push(b)) == crc_fold(crc_push(c, b), s.push(b).skip(1)));
        assert(crc_fold(crc_push(c, b), Seq::<u8>::empty()) == crc_push(c, b));
    } else {
        assert(s.push(b)[0] == s[0]);
        assert(s.push(b).skip(1) =~= s.skip(1).push(b));
        lemma_fold_snoc(crc_push(c, s[0]), s.skip(1), b);
    }
}

/// Entry `b` of lookup table `k`: the register after seeding with `b`
/// and absorbing `k + 1` bytes' worth of shifting.  Table 0 is the
/// classic byte-at-a-time table; the higher tables drive slicing-by-N.
pub open spec fn spec_table(k: nat, b: u8) -> u32 {
    crc_shift_bytes(b as u32, k + 1)
}

/// A 256-entry lookup table holding exactly the entries of table `k`.
pub open spec fn table_wf(t: Seq<u32>, k: nat) -> bool {
    &&& t.len() == 256
    &&& forall|i: int| 0 <= i < 256 ==> #[trigger] t[i] == spec_table(k, i as u8)
}

/// Exclusive or commutes; the default solver treats `^` as opaque, so
/// this is recorded once here.
proof fn lemma_xor_comm(a: u32, b: u32)
    ensures
        a ^ b == b ^ a,
{
    assert(a ^ b == b ^ a) by (bit_vector);
}

/// One bit step is a linear map over GF(2): it distributes over
/// exclusive or.
proof fn lemma_step_xor(a: u32, b: u32)
    ensures
        crc_step(a ^ b) == crc_step(a) ^ crc_step(b),
{
    assert(crc_step(a ^ b) == crc_step(a) ^ crc_step(b)) by (bit_vector);
}

/// `crc_step8` distributes over exclusive or: each bit step is linear,
/// and so is their eightfold composition.
proof fn lemma_step8_xor(a: u32, b: u32)
    ensures
        crc_step8(a ^ b) == crc_step8(a) ^ crc_step8(b),
{
    let a1 = crc_step(a);
    let b1 = crc_step(b);
    let a2 = crc_step(a1);
    let b2 = crc_step(b1);
    let a3 = crc_step(a2);
    let b3 = crc_step(b2);
    let a4 = crc_step(a3);
    let b4 = crc_step(b3);
    let a5 = crc_step(a4);
    let b5 = crc_step(b4);
    let a6 = crc_step(a5);
    let b6 = crc_step(b5);
    let a7 = crc_step(a6);
    let b7 = crc_step(b6);
    lemma_step_xor(a, b);
    lemma_step_xor(a1, b1);
    lemma_step_xor(a2, b2);
    lemma_step_xor(a3, b3);
    lemma_step_xor(a4, b4);
    lemma_step_xor(a5, b5);
    lemma_step_xor(a6, b6);
    lemma_step_xor(a7, b7);
}

/// Feeding one byte equals a table-0 lookup on the folded low byte,
/// XORed onto the shifted-down register.
proof fn lemma_push_decompose(c: u32, b: u8)
    ensures
        crc_push(c, b) == (c >> 8) ^ crc_step8((((c as u8) ^ b)) as u32),
{
    assert(crc_step8(c ^ (b as u32)) == (c >> 8) ^ crc_step8((((c as u8) ^ b)) as u32))
        by (bit_vector);
}

/// Absorbing one more zero byte at the front or at the back of the run
/// is the same thing.
proof fn lemma_shift_bytes_commute(c: u32, n: nat)
    ensures
        crc_shift_bytes(c, n + 1) == crc_step8(crc_shift_bytes(c, n)),
    decreases n,
{
    if n == 0 {
        assert(crc_shift_bytes(crc_step8(c), 0) == crc_step8(c));
        assert(crc_shift_bytes(c, 1) == crc_shift_bytes(crc_step8(c), 0));
    } else {
        lemma_shift_bytes_commute(crc_step8(c), (n - 1) as nat);
        assert(crc_shift_bytes(c, n + 1) == crc_shift_bytes(crc_step8(c), n));
        assert(crc_shift_bytes(c, n) == crc_shift_bytes(crc_step8(c), (n - 1) as nat));
    }
}

/// Table 0 at byte `b` is just eight bit steps on `b`.
proof fn lemma_table0(b: u8)
    ensures
        spec_table(0, b) == crc_step8(b as u32),
{
    assert(crc_shift_bytes(crc_step8(b as u32), 0) == crc_step8(b as u32));
    assert(crc_shift_bytes(b as u32, 1) == crc_shift_bytes(crc_step8(b as u32), 0));
}

/// Build the classic 256-entry CRC32C lookup table: entry `b` is the
/// bit-serial result of running a register seeded with `b` through
/// eight bit steps.
pub fn generate_crc32c_table() -> (t: Vec<u32>)
    ensures
        table_wf(t@, 0),
{
    let mut t: Vec<u32> = Vec::new();
    let mut i: usize = 0;
    while i < 256
        invariant
            i <= 256,
            t@.len() == i,
            forall|m: int| 0 <= m < i ==> #[trigger] t@[m] == spec_table(0, m as u8),
        decreases 256 - i,
    {
        let mut crc: u32 = i as u32;
        let ghost start = crc;
        let mut j: usize = 0;
        while j < 8
            invariant
                j <= 8,
                crc == crc_step_n(start, j as nat),
            decreases 8 - j,
        {
            if crc & 1 == 1 {
                crc = (crc >> 1) ^ CRC32C_POLYNOMIAL;
            } else {
                crc = crc >> 1;
            }
            j += 1;
        }
        proof {
            lemma_step_n_8(start);
            assert(crc_shift_bytes(start, 1) == crc_shift_bytes(crc_step8(start), 0));
            assert(crc == spec_table(0, i as u8));
        }
        t.push(crc);
        i += 1;
    }
    t
}

/// Build the first `n` CRC32C lookup tables: table 0 as above, and each
/// further table the previous one pushed through one more byte shift.
fn generate_crc32c_tables(n: usize) -> (t: Vec<Vec<u32>>)
    requires
        1 <= n,
    ensures
        t@.len() == n,
        forall|k: int| 0 <= k < n ==> table_wf(#[trigger] t@[k]@, k as nat),
{
    let mut t: Vec<Vec<u32>> = Vec::new();
    t.push(generate_crc32c_table());
    let mut k: usize = 1;
    while k < n
        invariant
            1 <= k <= n,
            t@.len() == k,
            forall|m: int| 0 <= m < k ==> table_wf(#[trigger] t@[m]@, m as nat),
        decreases n - k,
    {
        let mut next: Vec<u32> = Vec::new();
        let mut i: usize = 0;
        while i < 256
            invariant
                i <= 256,
                1 <= k,
                next@.len() == i,
                t@.len() == k,
                forall|m: int| 0 <= m < k ==> table_wf(#[trigger] t@[m]@, m as nat),
                forall|m: int| 0 <= m < i ==> #[trigger] next@[m] == spec_table(k as nat, m as u8),
            decreases 256 - i,
        {
            let prev: u32 = t[k - 1][i];
            let low: u8 = #[verifier::truncate] (prev as u8);
            let entry: u32 = t[0][low as usize] ^ (prev >> 8);
            proof {
                assert(table_wf(t@[k - 1]@, (k - 1) as nat));
                assert(table_wf(t@[0]@, 0));
                assert(prev == spec_table((k - 1) as nat, i as u8));
                assert(t@[0]@[low as int] == spec_table(0, low));
                lemma_table0(low);
                lemma_push_decompose(prev, 0);
                assert((low ^ 0) == low) by (bit_vector);
                assert(crc_push(prev, 0) == crc_step8(prev ^ 0));
                assert(prev ^ 0 == prev) by (bit_vector);
                lemma_xor_comm(t@[0]@[low as int], prev >> 8);
                assert(entry == crc_step8(prev));
                lemma_shift_bytes_commute(i as u8 as u32, k as nat);
                assert(entry == spec_table(k as nat, i as u8));
            }
            next.push(entry);
            i += 1;
        }
        t.push(next);
        k += 1;
    }
    t
}

/// The eight lookup tables that drive slicing-by-8.
pub fn generate_crc32c_tables_8() -> (t: Vec<Vec<u32>>)
    ensures
        t@.len() == 8,
        forall|k: int| 0 <= k < 8 ==> table_wf(#[trigger] t@[k]@, k as nat),
{
    generate_crc32c_tables(8)
}

/// The sixteen lookup tables that drive slicing-by-16.
pub fn generate_crc32c_tables_16() -> (t: Vec<Vec<u32>>)
    ensures
        t@.len() == 16,
        forall|k: int| 0 <= k < 16 ==> table_wf(#[trigger] t@[k]@, k as nat),
{
    generate_crc32c_tables(16)
}

/// The thirty-two lookup tables that drive slicing-by-32.
pub fn generate_crc32c_tables_32() -> (t: Vec<Vec<u32>>)
    ensures
        t@.len() == 32,
        forall|k: int| 0 <= k < 32 ==> table_wf(#[trigger] t@[k]@, k as nat),
{
    generate_crc32c_tables(32)
}

/// The register after absorbing `s` from an all-zero seed, written as
/// the XOR of each byte's independent contribution: byte `i` is pushed
/// and then shifted across the `s.len() - 1 - i` bytes that follow it.
pub open spec fn crc_terms(s: Seq<u8>) -> u32
    decreases s.len(),
{
    if s.len() == 0 {
        0u32
    } else {
        crc_shift_bytes(s[0] as u32, s.len()) ^ crc_terms(s.skip(1))
    }
}

/// Zero stays zero under byte shifts.
proof fn lemma_shift_bytes_zero(n: nat)
    ensures
        crc_shift_bytes(0, n) == 0,
    decreases n,
{
    if n > 0 {
        assert(crc_step8(0u32) == 0) by (bit_vector);
        lemma_shift_bytes_zero((n - 1) as nat);
    }
}

/// Byte shifting distributes over exclusive or.
proof fn lemma_shift_bytes_xor(a: u32, b: u32, n: nat)
    ensures
        crc_shift_bytes(a ^ b, n) == crc_shift_bytes(a, n) ^ crc_shift_bytes(b, n),
    decreases n,
{
    if n > 0 {
        lemma_step8_xor(a, b);
        lemma_shift_bytes_xor(crc_step8(a), crc_step8(b), (n - 1) as nat);
    }
}

/// A seed split as `cx ^ cy` folds as the `cx` part folding the bytes,
/// with the `cy` part merely shifting alongside.
proof fn lemma_fold_xor(cx: u32, cy: u32, s: Seq<u8>)
    ensures
        crc_fold(cx ^ cy, s) == crc_fold(cx, s) ^ crc_shift_bytes(cy, s.len()),
    decreases s.len(),
{
    if s.len() == 0 {
        assert(crc_shift_bytes(cy, 0) == cy);
    } else {
        let b = s[0];
        lemma_step8_xor(cx ^ (b as u32), cy);
        assert((cx ^ cy) ^ (b as u32) == (cx ^ (b as u32)) ^ cy) by (bit_vector);
        assert(crc_push(cx ^ cy, b) == crc_push(cx, b) ^ crc_step8(cy));
        lemma_fold_xor(crc_push(cx, b), crc_step8(cy), s.skip(1));
        lemma_shift_bytes_commute_front(cy, (s.len() - 1) as nat);
    }
}

/// `crc_shift_bytes(c, n + 1)` also unfolds at the front.
proof fn lemma_shift_bytes_commute_front(c: u32, n: nat)
    ensures
        crc_shift_bytes(crc_step8(c), n) == crc_shift_bytes(c, n + 1),
{
    assert(crc_shift_bytes(c, n + 1) == crc_shift_bytes(crc_step8(c), n));
}

/// Folding from a zero seed is exactly the per-byte contribution sum.
proof fn lemma_fold_zero_terms(s: Seq<u8>)
    ensures
        crc_fold(0, s) == crc_terms(s),
    decreases s.len(),
{
    if s.len() > 0 {
        let b = s[0];
        assert(0u32 ^ (b as u32) == (b as u32)) by (bit_vector);
        assert(crc_push(0, b) == crc_step8(b as u32));
        assert(crc_push(0, b) ^ 0u32 == crc_push(0, b)) by (bit_vector);
        assert(crc_push(0, b) == 0u32 ^ crc_push(0, b)) by (bit_vector);
        lemma_fold_xor(0, crc_push(0, b), s.skip(1));
        lemma_fold_zero_terms(s.skip(1));
        lemma_shift_bytes_commute_front(b as u32, (s.len() - 1) as nat);
        lemma_xor_comm(crc_shift_bytes(b as u32, s.len()), crc_terms(s.skip(1)));
    }
}

/// Folding a concatenation is folding the parts in order.  This is the
/// heart of the streaming engine's correctness: however an input is
/// split into successive `update` calls, the register ends where one
/// pass over the whole input would have left it.
pub proof fn lemma_fold_append(c: u32, s: Seq<u8>, t: Seq<u8>)
    ensures
        crc_fold(c, s + t) == crc_fold(crc_fold(c, s), t),
    decreases s.len(),
{
    if s.len() == 0 {
        assert(s + t =~= t);
    } else {
        assert((s + t)[0] == s[0]);
        assert((s + t).skip(1) =~= s.skip(1) + t);
        lemma_fold_append(crc_push(c, s[0]), s.skip(1), t);
    }
}

/// Peel the low byte off a shifting register: the low byte shifts the
/// full distance, the rest starts one byte further along.
proof fn lemma_shift_bytes_split(c: u32, n: nat)
    requires
        n >= 1,
    ensures
        crc_shift_bytes(c, n) == crc_shift_bytes((c as u8) as u32, n) ^ crc_shift_bytes(
            c >> 8,
            (n - 1) as nat,
        ),
{
    assert(crc_step8(c) == crc_step8(((c as u8) as u32)) ^ (c >> 8)) by (bit_vector);
    lemma_shift_bytes_xor(crc_step8((c as u8) as u32), c >> 8, (n - 1) as nat);
    lemma_shift_bytes_commute_front((c as u8) as u32, (n - 1) as nat);
    assert(crc_shift_bytes(c, n) == crc_shift_bytes(crc_step8(c), (n - 1) as nat));
}

/// A 32-bit register shifting `n >= 4` bytes is the XOR of its four
/// bytes, each shifting from its own position.
proof fn lemma_state_bytes(c: u32, n: nat)
    requires
        n >= 4,
    ensures
        crc_shift_bytes(c, n) == crc_shift_bytes((c as u8) as u32, n) ^ crc_shift_bytes(
            ((c >> 8) as u8) as u32,
            (n - 1) as nat,
        ) ^ crc_shift_bytes(((c >> 16) as u8) as u32, (n - 2) as nat) ^ crc_shift_bytes(
            ((c >> 24) as u8) as u32,
            (n - 3) as nat,
        ),
{
    lemma_shift_bytes_split(c, n);
    lemma_shift_bytes_split(c >> 8, (n - 1) as nat);
    lemma_shift_bytes_split(c >> 16, (n - 2) as nat);
    assert(((c >> 8) >> 8) == c >> 16 && ((c >> 16) >> 8) == c >> 24 && (c >> 24) == ((c >> 24) as u8) as u32)
        by (bit_vector);
    let t0 = crc_shift_bytes((c as u8) as u32, n);
    let t1 = crc_shift_bytes(((c >> 8) as u8) as u32, (n - 1) as nat);
    let t2 = crc_shift_bytes(((c >> 16) as u8) as u32, (n - 2) as nat);
    let t3 = crc_shift_bytes(((c >> 24) as u8) as u32, (n - 3) as nat);
    assert(t0 ^ (t1 ^ (t2 ^ t3)) == ((t0 ^ t1) ^ t2) ^ t3) by (bit_vector);
}

/// Absorbing a register into the first four bytes of a block: folding
/// the block from seed `c` equals the zero-seed contribution sum of the
/// block with `c`'s bytes XORed into its first four bytes.
proof fn lemma_block_absorb(c: u32, s: Seq<u8>, t: Seq<u8>)
    requires
        s.len() >= 4,
        t.len() == s.len(),
        t[0] == s[0] ^ (c as u8),
        t[1] == s[1] ^ ((c >> 8) as u8),
        t[2] == s[2] ^ ((c >> 16) as u8),
        t[3] == s[3] ^ ((c >> 24) as u8),
        forall|i: int| 4 <= i < s.len() ==> t[i] == s[i],
    ensures
        crc_fold(c, s) == crc_terms(t),
{
    let n = s.len();
    assert(0u32 ^ c == c) by (bit_vector);
    lemma_fold_xor(0, c, s);
    lemma_fold_zero_terms(s);
    lemma_state_bytes(c, n);
    // Unfold the first four terms of both sums.
    assert(s.skip(1).skip(1) =~= s.skip(2));
    assert(s.skip(2).skip(1) =~= s.skip(3));
    assert(s.skip(3).skip(1) =~= s.skip(4));
    assert(t.skip(1).skip(1) =~= t.skip(2));
    assert(t.skip(2).skip(1) =~= t.skip(3));
    assert(t.skip(3).skip(1) =~= t.skip(4));
    assert(t.skip(4) =~= s.skip(4));
    let s0 = crc_shift_bytes(s[0] as u32, n);
    let s1 = crc_shift_bytes(s[1] as u32, (n - 1) as nat);
    let s2 = crc_shift_bytes(s[2] as u32, (n - 2) as nat);
    let s3 = crc_shift_bytes(s[3] as u32, (n - 3) as nat);
    let r = crc_terms(s.skip(4));
    assert(crc_terms(s) == s0 ^ crc_terms(s.skip(1)));
    assert(s.skip(1)[0] == s[1] && s.skip(1).len() == n - 1);
    assert(crc_terms(s.skip(1)) == s1 ^ crc_terms(s.skip(2)));
    assert(s.skip(2)[0] == s[2] && s.skip(2).len() == n - 2);
    assert(crc_terms(s.skip(2)) == s2 ^ crc_terms(s.skip(3)));
    assert(s.skip(3)[0] == s[3] && s.skip(3).len() == n - 3);
    assert(crc_terms(s.skip(3)) == s3 ^ crc_terms(s.skip(4)));
    assert(crc_terms(s) == s0 ^ (s1 ^ (s2 ^ (s3 ^ r))));
    let c0 = crc_shift_bytes((c as u8) as u32, n);
    let c1 = crc_shift_bytes(((c >> 8) as u8) as u32, (n - 1) as nat);
    let c2 = crc_shift_bytes(((c >> 16) as u8) as u32, (n - 2) as nat);
    let c3 = crc_shift_bytes(((c >> 24) as u8) as u32, (n - 3) as nat);
    // Each modified byte contributes its own XOR of contributions.
    let x0: u8 = s[0];
    let y0: u8 = c as u8;
    assert(((x0 ^ y0) as u32) == (x0 as u32) ^ (y0 as u32)) by (bit_vector);
    lemma_shift_bytes_xor(x0 as u32, y0 as u32, n);
    let x1: u8 = s[1];
    let y1: u8 = (c >> 8) as u8;
    assert(((x1 ^ y1) as u32) == (x1 as u32) ^ (y1 as u32)) by (bit_vector);
    lemma_shift_bytes_xor(x1 as u32, y1 as u32, (n - 1) as nat);
    let x2: u8 = s[2];
    let y2: u8 = (c >> 16) as u8;
    assert(((x2 ^ y2) as u32) == (x2 as u32) ^ (y2 as u32)) by (bit_vector);
    lemma_shift_bytes_xor(x2 as u32, y2 as u32, (n - 2) as nat);
    let x3: u8 = s[3];
    let y3: u8 = (c >> 24) as u8;
    assert(((x3 ^ y3) as u32) == (x3 as u32) ^ (y3 as u32)) by (bit_vector);
    lemma_shift_bytes_xor(x3 as u32, y3 as u32, (n - 3) as nat);
    assert(crc_terms(t) == (s0 ^ c0) ^ crc_terms(t.skip(1)));
    assert(t.skip(1)[0] == t[1] && t.skip(1).len() == n - 1);
    assert(crc_terms(t.skip(1)) == (s1 ^ c1) ^ crc_terms(t.skip(2)));
    assert(t.skip(2)[0] == t[2] && t.skip(2).len() == n - 2);
    assert(crc_terms(t.skip(2)) == (s2 ^ c2) ^ crc_terms(t.skip(3)));
    assert(t.skip(3)[0] == t[3] && t.skip(3).len() == n - 3);
    assert(crc_terms(t.skip(3)) == (s3 ^ c3) ^ crc_terms(t.skip(4)));
    assert(crc_terms(t) == (s0 ^ c0) ^ ((s1 ^ c1) ^ ((s2 ^ c2) ^ ((s3 ^ c3) ^ r))));
    // Regroup the eight contributions plus the shared tail.
    assert((s0 ^ c0) ^ ((s1 ^ c1) ^ ((s2 ^ c2) ^ ((s3 ^ c3) ^ r))) == (s0 ^ (s1 ^ (s2 ^ (s3
        ^ r)))) ^ (((c0 ^ c1) ^ c2) ^ c3)) by (bit_vector);
}

/// The value of four bytes read as a little-endian 32-bit integer.
pub open spec fn le32v(b0: u8, b1: u8, b2: u8, b3: u8) -> u32 {
    (b0 as u32) | ((b1 as u32) << 8) | ((b2 as u32) << 16) | ((b3 as u32) << 24)
}

/// Read the first four bytes of a slice as a little-endian `u32`.
pub fn read_u32_le(slice: &[u8]) -> (r: u32)
    requires
        slice@.len() >= 4,
    ensures
        r == le32v(slice@[0], slice@[1], slice@[2], slice@[3]),
{
    (slice[0] as u32) | ((slice[1] as u32) << 8) | ((slice[2] as u32) << 16) | (
    (slice[3] as u32) << 24)
}

/// Exclusive or is an involution: folding the same value in twice
/// cancels.
proof fn lemma_xor_cancel(a: u32, b: u32)
    ensures
        (a ^ b) ^ b == a,
{
    assert((a ^ b) ^ b == a) by (bit_vector);
}

/// One slicing step.  `c1` is the register with the block's first four
/// bytes already XORed in; the result is the register after the whole
/// `n`-byte block at `data[i..i + n]` has been absorbed from the
/// original register `c1 ^ le32v(block[0..4])`.
fn crc_block_step(c1: u32, data: &[u8], i: usize, n: usize, tables: &Vec<Vec<u32>>) -> (r: u32)
    requires
        4 <= n,
        i + n <= data@.len(),
        tables@.len() == n,
        forall|k: int| 0 <= k < n ==> table_wf(#[trigger] tables@[k]@, k as nat),
    ensures
        r == crc_fold(
            c1 ^ le32v(data@[i as int], data@[i + 1], data@[i + 2], data@[i + 3]),
            data@.subrange(i as int, i + n),
        ),
{
    let ghost b0 = data@[i as int];
    let ghost b1 = data@[i + 1];
    let ghost b2 = data@[i + 2];
    let ghost b3 = data@[i + 3];
    let ghost c = c1 ^ le32v(b0, b1, b2, b3);
    let ghost s = data@.subrange(i as int, i + n);
    let ghost front = seq![
        (c1 as u8),
        ((c1 >> 8) as u8),
        ((c1 >> 16) as u8),
        ((c1 >> 24) as u8),
    ];
    let ghost eb = front + data@.subrange(i + 4, i + n);
    proof {
        assert(eb.len() == n);
        assert((c1 as u8) == b0 ^ ((c1 ^ le32v(b0, b1, b2, b3)) as u8) && ((c1 >> 8) as u8) == b1
            ^ (((c1 ^ le32v(b0, b1, b2, b3)) >> 8) as u8) && ((c1 >> 16) as u8) == b2 ^ (((c1
            ^ le32v(b0, b1, b2, b3)) >> 16) as u8) && ((c1 >> 24) as u8) == b3 ^ (((c1 ^ le32v(
            b0,
            b1,
            b2,
            b3,
        )) >> 24) as u8)) by (bit_vector);
    }
    let dl: usize = data.len();
    let mut acc: u32 = 0;
    proof {
        assert(eb.skip(0) =~= eb);
        let tt = crc_terms(eb);
        assert(tt ^ tt == 0u32) by (bit_vector);
    }
    let mut j: usize = 0;
    while j < n
        invariant
            j <= n,
            4 <= n,
            dl == data@.len(),
            i + n <= data@.len(),
            tables@.len() == n,
            forall|k: int| 0 <= k < n ==> table_wf(#[trigger] tables@[k]@, k as nat),
            eb == front + data@.subrange(i + 4, i + n),
            front == seq![
                (c1 as u8),
                ((c1 >> 8) as u8),
                ((c1 >> 16) as u8),
                ((c1 >> 24) as u8),
            ],
            acc == crc_terms(eb) ^ crc_terms(eb.skip(j as int)),
        decreases n - j,
    {
        let idx: u8 = if j == 0 {
            #[verifier::truncate] (c1 as u8)
        } else if j == 1 {
            #[verifier::truncate] ((c1 >> 8) as u8)
        } else if j == 2 {
            #[verifier::truncate] ((c1 >> 16) as u8)
        } else if j == 3 {
            #[verifier::truncate] ((c1 >> 24) as u8)
        } else {
            data[i + j]
        };
        proof {
            assert(eb[j as int] == idx);
        }
        let e: u32 = tables[n - 1 - j][idx as usize];
        proof {
            assert(table_wf(tables@[n - 1 - j]@, (n - 1 - j) as nat));
            assert(e == spec_table((n - 1 - j) as nat, idx));
            assert(e == crc_shift_bytes(idx as u32, (n - j) as nat));
            assert(eb.skip(j as int)[0] == eb[j as int]);
            assert(eb.skip(j as int).len() == n - j);
            assert(eb.skip(j as int).skip(1) =~= eb.skip(j + 1));
            assert(crc_terms(eb.skip(j as int)) == e ^ crc_terms(eb.skip(j + 1)));
            let tt = crc_terms(eb);
            let rr = crc_terms(eb.skip(j + 1));
            assert((tt ^ (e ^ rr)) ^ e == tt ^ rr) by (bit_vector);
        }
        acc = acc ^ e;
        j += 1;
    }
    proof {
        assert(eb.skip(n as int).len() == 0);
        assert(crc_terms(eb.skip(n as int)) == 0);
        let tt = crc_terms(eb);
        assert(tt ^ 0 == tt) by (bit_vector);
        assert(acc == crc_terms(eb));
        assert(s[0] == b0 && s[1] == b1 && s[2] == b2 && s[3] == b3);
        assert(forall|m: int| 4 <= m < n ==> eb[m] == s[m]);
        lemma_block_absorb(c, s, eb);
    }
    acc
}

/// Slicing-by-`n` CRC32C: absorb whole `n`-byte blocks through the
/// table family, then finish the tail one byte at a time.
fn crc32c_blocks(data: &[u8], n: usize) -> (r: u32)
    requires
        4 <= n,
    ensures
        r == crc32c_spec(data@),
{
    let tables = generate_crc32c_tables(n);
    let mut crc: u32 = 0xffffffff;
    let mut i: usize = 0;
    while data.len() - i >= n
        invariant
            i <= data@.len(),
            4 <= n,
            tables@.len() == n,
            forall|k: int| 0 <= k < n ==> table_wf(#[trigger] tables@[k]@, k as nat),
            crc == crc_fold(CRC32C_INIT, data@.take(i as int)),
        decreases data@.len() - i,
    {
        let w: u32 = (data[i] as u32) | ((data[i + 1] as u32) << 8) | ((data[i + 2] as u32) << 16)
            | ((data[i + 3] as u32) << 24);
        let ghost prev = crc;
        let c1 = crc ^ w;
        let r = crc_block_step(c1, data, i, n, &tables);
        proof {
            lemma_xor_cancel(prev, w);
            assert(c1 ^ w == prev);
            lemma_fold_append(CRC32C_INIT, data@.take(i as int), data@.subrange(i as int, i + n));
            assert(data@.take((i + n) as int) =~= data@.take(i as int) + data@.subrange(
                i as int,
                i + n,
            ));
        }
        crc = r;
        i += n;
    }
    let c = crc_fold_bytes(crc, data, i, &tables[0]);
    proof {
        lemma_fold_append(CRC32C_INIT, data@.take(i as int), data@.skip(i as int));
        assert(data@ =~= data@.take(i as int) + data@.skip(i as int));
    }
    c ^ 0xffffffff
}

/// Fold `data[start..]` into the register one byte at a time through
/// table-0 lookups.
fn crc_fold_bytes(crc: u32, data: &[u8], start: usize, table: &Vec<u32>) -> (r: u32)
    requires
        table_wf(table@, 0),
        start <= data@.len(),
    ensures
        r == crc_fold(crc, data@.skip(start as int)),
{
    let mut c: u32 = crc;
    let mut i: usize = start;
    while i < data.len()
        invariant
            start <= i <= data@.len(),
            table_wf(table@, 0),
            c == crc_fold(crc, data@.subrange(start as int, i as int)),
        decreases data@.len() - i,
    {
        let ghost prev = c;
        let b: u8 = data[i];
        let idx: u8 = (#[verifier::truncate] (c as u8)) ^ b;
        c = (c >> 8) ^ table[idx as usize];
        proof {
            assert(table@[idx as int] == spec_table(0, idx));
            lemma_table0(idx);
            lemma_push_decompose(prev, b);
            assert(c == crc_push(prev, b));
            lemma_fold_snoc(crc, data@.subrange(start as int, i as int), b);
            assert(data@.subrange(start as int, i + 1) =~= data@.subrange(
                start as int,
                i as int,
            ).push(data@[i as int]));
        }
        i += 1;
    }
    assert(data@.subrange(start as int, data@.len() as int) =~= data@.skip(start as int));
    c
}

/// Table-driven CRC32C, one byte per step: shift the register down a
/// byte and fold in the table entry selected by the old low byte XORed
/// with the input byte.
pub fn crc32c_table(data: &[u8]) -> (r: u32)
    ensures
        r == crc32c_spec(data@),
{
    let table = generate_crc32c_table();
    let c = crc_fold_bytes(0xffffffff, data, 0, &table);
    proof {
        assert(data@.skip(0) =~= data@);
    }
    c ^ 0xffffffff
}

/// CRC32C by slicing-by-8: eight bytes per iteration through eight
/// lookup tables.
pub fn crc32c_slice8(data: &[u8]) -> (r: u32)
    ensures
        r == crc32c_spec(data@),
{
    crc32c_blocks(data, 8)
}

/// CRC32C by slicing-by-16: sixteen bytes per iteration through
/// sixteen lookup tables.
pub fn crc32c_slice16(data: &[u8]) -> (r: u32)
    ensures
        r == crc32c_spec(data@),
{
    crc32c_blocks(data, 16)
}

/// CRC32C by slicing-by-32: thirty-two bytes per iteration through
/// thirty-two lookup tables.
pub fn crc32c_slice32(data: &[u8]) -> (r: u32)
    ensures
        r == crc32c_spec(data@),
{
    crc32c_blocks(data, 32)
}

/// Dispatching entry point for the fastest checksum path.  The CRC32C
/// CPU instructions can only be reached through unsafe intrinsics,
/// which this crate keeps out of the verified library, so this resolves
/// to the widest software slicing path.
pub fn crc32c_hw(data: &[u8]) -> (r: u32)
    ensures
        r == crc32c_spec(data@),
{
    crc32c_slice16(data)
}

/// Slicing-by-16 written against a moving cursor: read the four bytes
/// under the register with `read_u32_le`, fold the block, advance.
pub fn crc32c_slice16_bt(data: &[u8]) -> (r: u32)
    ensures
        r == crc32c_spec(data@),
{
    let tables = generate_crc32c_tables(16);
    let mut crc: u32 = 0xffffffff;
    let mut i: usize = 0;
    while data.len() - i >= 16
        invariant
            i <= data@.len(),
            tables@.len() == 16,
            forall|k: int| 0 <= k < 16 ==> table_wf(#[trigger] tables@[k]@, k as nat),
            crc == crc_fold(CRC32C_INIT, data@.take(i as int)),
        decreases data@.len() - i,
    {
        let w: u32 = read_u32_le(&data[i..i + 4]);
        proof {
            assert(data@.subrange(i as int, i + 4)[0] == data@[i as int]);
            assert(data@.subrange(i as int, i + 4)[1] == data@[i + 1]);
            assert(data@.subrange(i as int, i + 4)[2] == data@[i + 2]);
            assert(data@.subrange(i as int, i + 4)[3] == data@[i + 3]);
        }
        let ghost prev = crc;
        let c1 = crc ^ w;
        let r = crc_block_step(c1, data, i, 16, &tables);
        proof {
            lemma_xor_cancel(prev, w);
            lemma_fold_append(CRC32C_INIT, data@.take(i as int), data@.subrange(i as int, i + 16));
            assert(data@.take((i + 16) as int) =~= data@.take(i as int) + data@.subrange(
                i as int,
                i + 16,
            ));
        }
        crc = r;
        i += 16;
    }
    let c = crc_fold_bytes(crc, data, i, &tables[0]);
    proof {
        lemma_fold_append(CRC32C_INIT, data@.take(i as int), data@.skip(i as int));
        assert(data@ =~= data@.take(i as int) + data@.skip(i as int));
    }
    c ^ 0xffffffff
}

/// Bit-serial reference implementation.  For each input byte, fold it
/// into the low bits of the register and run the division bit by bit.
/// This is the correctness anchor the faster paths are measured against.
pub fn crc32c(data: &[u8]) -> (r: u32)
    ensures
        r == crc32c_spec(data@),
{
    let mut crc: u32 = 0xffffffff;
    let mut i: usize = 0;
    while i < data.len()
        invariant
            i <= data@.len(),
            crc == crc_fold(CRC32C_INIT, data@.take(i as int)),
        decreases data@.len() - i,
    {
        let ghost prev = crc;
        crc = crc ^ (data[i] as u32);
        let ghost start = crc;
        let mut j: usize = 0;
        while j < 8
            invariant
                j <= 8,
                crc == crc_step_n(start, j as nat),
            decreases 8 - j,
        {
            if crc & 1 == 1 {
                crc = (crc >> 1) ^ CRC32C_POLYNOMIAL;
            } else {
                crc = crc >> 1;
            }
            j += 1;
        }
        proof {
            lemma_step_n_8(start);
            assert(crc == crc_push(prev, data@[i as int]));
            lemma_fold_snoc(CRC32C_INIT, data@.take(i as int), data@[i as int]);
            assert(data@.take(i + 1) =~= data@.take(i as int).push(data@[i as int]));
        }
        i += 1;
    }
    assert(data@.take(data@.len() as int) =~= data@);
    crc ^ 0xffffffff
}

/// The checksum of the empty input is zero: the all-ones seed is
/// complemented straight back.
pub proof fn lemma_crc32c_empty()
    ensures
        crc32c_spec(Seq::<u8>::empty()) == 0,
{
    assert(crc_fold(CRC32C_INIT, Seq::<u8>::empty()) == CRC32C_INIT);
    assert(0xffffffffu32 ^ 0xffffffffu32 == 0) by (bit_vector);
}

/// A nonzero register never shifts down to zero: every bit step is
/// invertible.
proof fn lemma_shift_bytes_nonzero(x: u32, n: nat)
    requires
        x != 0,
    ensures
        crc_shift_bytes(x, n) != 0,
    decreases n,
{
    if n > 0 {
        assert(x != 0 ==> crc_step8(x) != 0) by (bit_vector);
        lemma_shift_bytes_nonzero(crc_step8(x), (n - 1) as nat);
    }
}

/// Two equal-length inputs that agree everywhere but at position `i`
/// have contribution sums that differ by exactly the shifted
/// contribution of the differing bytes.
proof fn lemma_terms_diff(s1: Seq<u8>, s2: Seq<u8>, i: int)
    requires
        s1.len() == s2.len(),
        0 <= i < s1.len(),
        forall|j: int| 0 <= j < s1.len() && j != i ==> s1[j] == s2[j],
    ensures
        crc_terms(s1) ^ crc_terms(s2) == crc_shift_bytes(
            (s1[i] as u32) ^ (s2[i] as u32),
            (s1.len() - i) as nat,
        ),
    decreases i,
{
    let n = s1.len();
    if i == 0 {
        assert(s1.skip(1) =~= s2.skip(1));
        let a1 = crc_shift_bytes(s1[0] as u32, n);
        let a2 = crc_shift_bytes(s2[0] as u32, n);
        let r = crc_terms(s1.skip(1));
        assert(crc_terms(s1) == a1 ^ r);
        assert(crc_terms(s2) == a2 ^ r);
        assert((a1 ^ r) ^ (a2 ^ r) == a1 ^ a2) by (bit_vector);
        lemma_shift_bytes_xor(s1[0] as u32, s2[0] as u32, n as nat);
    } else {
        assert(s1[0] == s2[0]);
        assert(forall|j: int|
            0 <= j < s1.skip(1).len() && j != i - 1 ==> s1.skip(1)[j] == s2.skip(1)[j]);
        lemma_terms_diff(s1.skip(1), s2.skip(1), i - 1);
        let a = crc_shift_bytes(s1[0] as u32, n);
        let r1 = crc_terms(s1.skip(1));
        let r2 = crc_terms(s2.skip(1));
        assert(crc_terms(s1) == a ^ r1);
        assert(crc_terms(s2) == a ^ r2);
        assert((a ^ r1) ^ (a ^ r2) == r1 ^ r2) by (bit_vector);
        assert(s1.skip(1)[i - 1] == s1[i] && s2.skip(1)[i - 1] == s2[i]);
    }
}

/// CRC32C detects every single-byte change: two equal-length inputs
/// that differ in exactly one byte never share a checksum.  This is
/// what makes a one-byte flip anywhere under the checksum's cover
/// impossible to miss.
pub proof fn lemma_crc32c_detects_byte_flip(s1: Seq<u8>, s2: Seq<u8>, i: int)
    requires
        s1.len() == s2.len(),
        0 <= i < s1.len(),
        s1[i] != s2[i],
        forall|j: int| 0 <= j < s1.len() && j != i ==> s1[j] == s2[j],
    ensures
        crc32c_spec(s1) != crc32c_spec(s2),
{
    lemma_fold_zero_terms(s1);
    lemma_fold_zero_terms(s2);
    lemma_terms_diff(s1, s2, i);
    let x1 = s1[i];
    let x2 = s2[i];
    assert(x1 != x2 ==> ((x1 as u32) ^ (x2 as u32)) != 0) by (bit_vector);
    lemma_shift_bytes_nonzero((x1 as u32) ^ (x2 as u32), (s1.len() - i) as nat);
    assert(0u32 ^ CRC32C_INIT == CRC32C_INIT) by (bit_vector);
    lemma_fold_xor(0, CRC32C_INIT, s1);
    lemma_fold_xor(0, CRC32C_INIT, s2);
    let off = crc_shift_bytes(CRC32C_INIT, s1.len());
    let t1 = crc_terms(s1);
    let t2 = crc_terms(s2);
    assert(crc_fold(CRC32C_INIT, s1) == t1 ^ off);
    assert(crc_fold(CRC32C_INIT, s2) == t2 ^ off);
    assert(t1 ^ t2 != 0 ==> (t1 ^ off) ^ 0xffffffffu32 != (t2 ^ off) ^ 0xffffffffu32)
        by (bit_vector);
}

/// Streaming CRC32C engine: a running register plus a staging buffer
/// of fewer than sixteen bytes.  `update` drains whole sixteen-byte
/// blocks through the slicing tables and stages the remainder;
/// `value` and `finalize` finish the staged bytes and complement.
pub struct IncrementalCrc32c {
    crc: u32,
    buf: Vec<u8>,
    tables: Vec<Vec<u32>>,
    drained: Ghost<Seq<u8>>,
}

impl IncrementalCrc32c {
    /// All bytes fed in since construction or the last reset.
    pub closed spec fn bytes(&self) -> Seq<u8> {
        self.drained@ + self.buf@
    }

    /// Internal consistency: the register has absorbed exactly the
    /// drained prefix, the staging buffer holds less than one block,
    /// and the lookup tables are the slicing-by-16 family.
    pub closed spec fn wf(&self) -> bool {
        &&& self.crc == crc_fold(CRC32C_INIT, self.drained@)
        &&& self.buf@.len() < 16
        &&& self.tables@.len() == 16
        &&& forall|k: int| 0 <= k < 16 ==> table_wf(#[trigger] self.tables@[k]@, k as nat)
    }

    /// A fresh engine that has seen no bytes.
    pub fn new() -> (r: Self)
        ensures
            r.wf(),
            r.bytes() == Seq::<u8>::empty(),
    {
        let r = Self {
            crc: 0xffffffff,
            buf: Vec::new(),
            tables: generate_crc32c_tables(16),
            drained: Ghost(Seq::empty()),
        };
        proof {
            assert(r.bytes() =~= Seq::<u8>::empty());
        }
        r
    }

    /// Absorb one full block that sits at `data[i..i + 16]`, moving it
    /// from pending input into the drained prefix.
    fn drain_block(&mut self, data: &[u8], i: usize)
        requires
            old(self).wf(),
            old(self).buf@.len() == 0,
            i + 16 <= data@.len(),
        ensures
            final(self).wf(),
            final(self).buf@ == old(self).buf@,
            final(self).tables == old(self).tables,
            final(self).drained@ == old(self).drained@ + data@.subrange(i as int, i + 16),
    {
        let dl: usize = data.len();
        let w: u32 = read_u32_le(&data[i..i + 4]);
        proof {
            assert(data@.subrange(i as int, i + 4)[0] == data@[i as int]);
            assert(data@.subrange(i as int, i + 4)[1] == data@[i + 1]);
            assert(data@.subrange(i as int, i + 4)[2] == data@[i + 2]);
            assert(data@.subrange(i as int, i + 4)[3] == data@[i + 3]);
        }
        let ghost prev = self.crc;
        let c1 = self.crc ^ w;
        let r = crc_block_step(c1, data, i, 16, &self.tables);
        proof {
            lemma_xor_cancel(prev, w);
            lemma_fold_append(CRC32C_INIT, self.drained@, data@.subrange(i as int, i + 16));
        }
        self.crc = r;
        proof {
            self.drained@ = self.drained@ + data@.subrange(i as int, i + 16);
        }
    }

    /// Feed more bytes.  Stages what cannot yet fill a block; absorbs
    /// every block that becomes complete.
    pub fn update(&mut self, data: &[u8])
        requires
            old(self).wf(),
        ensures
            final(self).wf(),
            final(self).bytes() == old(self).bytes() + data@,
    {
        let dl: usize = data.len();
        let mut i: usize = 0;
        // Top up the staging buffer first.
        if self.buf.len() > 0 {
            while self.buf.len() < 16 && i < dl
                invariant
                    dl == data@.len(),
                    i <= dl,
                    self.buf@.len() <= 16,
                    self.crc == crc_fold(CRC32C_INIT, self.drained@),
                    self.tables@.len() == 16,
                    forall|k: int| 0 <= k < 16 ==> table_wf(#[trigger] self.tables@[k]@, k as nat),
                    self.drained@ + self.buf@ == old(self).bytes() + data@.take(i as int),
                decreases dl - i,
            {
                let ghost b = data@[i as int];
                let ghost pre_buf = self.buf@;
                self.buf.push(data[i]);
                proof {
                    assert(self.drained@ + self.buf@ =~= (self.drained@ + pre_buf).push(b));
                    assert((old(self).bytes() + data@.take(i as int)).push(b) =~= old(
                        self,
                    ).bytes() + data@.take(i as int).push(b));
                    assert(data@.take(i + 1) =~= data@.take(i as int).push(b));
                }
                i += 1;
            }
            if self.buf.len() == 16 {
                let mut staged: Vec<u8> = Vec::new();
                core::mem::swap(&mut staged, &mut self.buf);
                let ghost pre = *self;
                self.drain_staged(&staged);
                proof {
                    assert(self.drained@ + self.buf@ =~= pre.drained@ + staged@);
                }
            }
        }
        // Absorb whole blocks straight from the input.
        while dl - i >= 16
            invariant
                dl == data@.len(),
                i <= dl,
                self.buf@.len() < 16,
                self.buf@.len() == 0 || i == dl,
                self.crc == crc_fold(CRC32C_INIT, self.drained@),
                self.tables@.len() == 16,
                forall|k: int| 0 <= k < 16 ==> table_wf(#[trigger] self.tables@[k]@, k as nat),
                self.drained@ + self.buf@ == old(self).bytes() + data@.take(i as int),
            decreases dl - i,
        {
            let ghost pre = *self;
            self.drain_block(data, i);
            proof {
                assert(data@.take((i + 16) as int) =~= data@.take(i as int) + data@.subrange(
                    i as int,
                    i + 16,
                ));
                assert(pre.buf@ =~= Seq::<u8>::empty());
                assert(self.drained@ + self.buf@ =~= (pre.drained@ + pre.buf@) + data@.subrange(
                    i as int,
                    i + 16,
                ));
                assert((old(self).bytes() + data@.take(i as int)) + data@.subrange(i as int, i + 16)
                    =~= old(self).bytes() + data@.take((i + 16) as int));
            }
            i += 16;
        }
        // Stage the tail.
        while i < dl
            invariant
                dl == data@.len(),
                i <= dl,
                self.buf@.len() + (dl - i) < 16,
                self.crc == crc_fold(CRC32C_INIT, self.drained@),
                self.tables@.len() == 16,
                forall|k: int| 0 <= k < 16 ==> table_wf(#[trigger] self.tables@[k]@, k as nat),
                self.drained@ + self.buf@ == old(self).bytes() + data@.take(i as int),
            decreases dl - i,
        {
            let ghost b = data@[i as int];
            let ghost pre_buf = self.buf@;
            self.buf.push(data[i]);
            proof {
                assert(self.drained@ + self.buf@ =~= (self.drained@ + pre_buf).push(b));
                assert((old(self).bytes() + data@.take(i as int)).push(b) =~= old(self).bytes()
                    + data@.take(i as int).push(b));
                assert(data@.take(i + 1) =~= data@.take(i as int).push(b));
            }
            i += 1;
        }
        proof {
            assert(data@.take(dl as int) =~= data@);
        }
    }

    /// Absorb a staged sixteen-byte block handed back as an owned
    /// vector.
    fn drain_staged(&mut self, staged: &Vec<u8>)
        requires
            old(self).wf(),
            old(self).buf@.len() == 0,
            staged@.len() == 16,
        ensures
            final(self).wf(),
            final(self).buf@ == old(self).buf@,
            final(self).drained@ == old(self).drained@ + staged@,
    {
        let ghost pre_drained = self.drained@;
        self.drain_block(staged.as_slice(), 0);
        proof {
            assert(staged@.subrange(0, 16) =~= staged@);
        }
    }

    /// The checksum of everything fed so far, without disturbing the
    /// engine: later `update` calls continue from the same point.
    pub fn value(&self) -> (r: u32)
        requires
            self.wf(),
        ensures
            r == crc32c_spec(self.bytes()),
    {
        let c = crc_fold_bytes(self.crc, self.buf.as_slice(), 0, &self.tables[0]);
        proof {
            assert(self.buf@.skip(0) =~= self.buf@);
            lemma_fold_append(CRC32C_INIT, self.drained@, self.buf@);
        }
        c ^ 0xffffffff
    }

    /// The checksum of everything fed so far; the staged bytes are
    /// drained into the register on the way.
    pub fn finalize(&mut self) -> (r: u32)
        requires
            old(self).wf(),
        ensures
            final(self).wf(),
            final(self).bytes() == old(self).bytes(),
            r == crc32c_spec(old(self).bytes()),
    {
        let c = crc_fold_bytes(self.crc, self.buf.as_slice(), 0, &self.tables[0]);
        proof {
            assert(self.buf@.skip(0) =~= self.buf@);
            lemma_fold_append(CRC32C_INIT, self.drained@, self.buf@);
        }
        proof {
            self.drained@ = self.drained@ + self.buf@;
        }
        self.buf.clear();
        self.crc = c;
        proof {
            assert(self.bytes() =~= old(self).bytes());
        }
        c ^ 0xffffffff
    }

    /// Return to the state of a freshly constructed engine.
    pub fn reset(&mut self)
        requires
            old(self).wf(),
        ensures
            final(self).wf(),
            final(self).bytes() == Seq::<u8>::empty(),
    {
        self.crc = 0xffffffff;
        self.buf.clear();
        proof {
            self.drained@ = Seq::empty();
            assert(self.bytes() =~= Seq::<u8>::empty());
        }
    }
}

} // verus!
