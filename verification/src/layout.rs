//! The mathematical model of register values and their memory representation.
//!
//! A register value is a natural number. In memory it is a run of bytes whose
//! order is fixed by two endiannesses: the order of bytes inside each
//! access-width word, and the order of the words inside the register.
use vstd::prelude::*;
use vstd::arithmetic::div_mod::{
    lemma_div_denominator, lemma_fundamental_div_mod, lemma_fundamental_div_mod_converse,
    lemma_mod_breakdown, lemma_mod_mod, lemma_div_pos_is_pos, lemma_mod_bound,
};
use vstd::arithmetic::mul::{
    lemma_mul_inequality, lemma_mul_is_associative, lemma_mul_is_commutative,
    lemma_mul_strictly_positive, lemma_mul_is_distributive_add,
};

verus! {

/// `256^n`: the number of distinct values that fit in `n` bytes.
pub open spec fn pow256(n: nat) -> nat
    decreases n,
{
    if n == 0 {
        1
    } else {
        256 * pow256((n - 1) as nat)
    }
}

/// The byte of significance `k` (0 is least significant) of `v`.
pub open spec fn byte_of(v: nat, k: nat) -> u8 {
    ((v / pow256(k)) % 256) as u8
}

/// The `n` least significant bytes of `v`, least significant first.
pub open spec fn le_bytes(v: nat, n: nat) -> Seq<u8> {
    Seq::new(n, |k: int| byte_of(v, k as nat))
}

/// The number whose bytes, least significant first, are `s`.
pub open spec fn le_value(s: Seq<u8>) -> nat
    decreases s.len(),
{
    if s.len() == 0 {
        0
    } else {
        s[0] as nat + 256 * le_value(s.drop_first())
    }
}

/// Position in significance order of the item at position `a` in address
/// order, among `n` items: the first address holds the most significant item
/// when `big` holds, the least significant otherwise.
pub open spec fn significance(big: bool, a: nat, n: nat) -> nat {
    if big && a < n {
        (n - 1 - a) as nat
    } else {
        a
    }
}

/// The bytes, in address order, of an `a`-byte word `w`.
pub open spec fn word_layout(w: nat, a: nat, big: bool) -> Seq<u8> {
    Seq::new(a, |j: int| byte_of(w, significance(big, j as nat, a)))
}

/// The value of an `a`-byte word laid out in address order as `b`.
pub open spec fn word_value(b: Seq<u8>, big: bool) -> nat {
    le_value(Seq::new(b.len(), |k: int| b[significance(big, k as nat, b.len()) as int]))
}

/// The significance of the byte at address offset `p` in a register of `r`
/// bytes accessed in words of `a` bytes.
pub open spec fn byte_significance(p: nat, r: nat, a: nat, byte_big: bool, word_big: bool) -> nat {
    significance(word_big, p / a, r / a) * a + significance(byte_big, p % a, a)
}

/// The bytes, in address order, of an `r`-byte register holding `v`.
pub open spec fn register_layout(v: nat, r: nat, a: nat, byte_big: bool, word_big: bool) -> Seq<u8> {
    Seq::new(r, |p: int| byte_of(v, byte_significance(p as nat, r, a, byte_big, word_big)))
}

/// The value of a register whose bytes, in address order, are `b`.
pub open spec fn register_value(b: Seq<u8>, a: nat, byte_big: bool, word_big: bool) -> nat {
    le_value(
        Seq::new(
            b.len(),
            |k: int| b[byte_significance(k as nat, b.len(), a, byte_big, word_big) as int],
        ),
    )
}

/// Register and access widths that the layout is defined for: the access
/// width is positive and divides the register width.
pub open spec fn widths_ok(r: nat, a: nat) -> bool {
    &&& a > 0
    &&& r % a == 0
}

/// Widths in bytes of the primitive integers a register or access can have.
pub open spec fn is_int_width(n: nat) -> bool {
    n == 1 || n == 2 || n == 4 || n == 8 || n == 16
}

pub proof fn lemma_pow256_pos(n: nat)
    ensures
        pow256(n) > 0,
    decreases n,
{
    if n > 0 {
        lemma_pow256_pos((n - 1) as nat);
    }
}

pub proof fn lemma_pow256_add(a: nat, b: nat)
    ensures
        pow256(a + b) == pow256(a) * pow256(b),
    decreases a,
{
    if a > 0 {
        lemma_pow256_add((a - 1) as nat, b);
        let x = pow256((a - 1) as nat) as int;
        let y = pow256(b) as int;
        assert(pow256(a + b) == 256 * pow256((a - 1 + b) as nat));
        assert(pow256(a) == 256 * x);
        lemma_mul_is_associative(256, x, y);
        assert(pow256(a + b) == 256 * (x * y));
        assert(pow256(a) * pow256(b) == (256 * x) * y);
    } else {
        assert(pow256(a) == 1);
        assert(a + b == b);
    }
}

pub proof fn lemma_pow256_mono(a: nat, b: nat)
    requires
        a <= b,
    ensures
        pow256(a) <= pow256(b),
    decreases b,
{
    if a < b {
        lemma_pow256_mono(a, (b - 1) as nat);
        lemma_pow256_pos((b - 1) as nat);
    }
}

pub proof fn lemma_pow256_values()
    ensures
        pow256(0) == 1,
        pow256(1) == 0x100,
        pow256(2) == 0x1_0000,
        pow256(4) == 0x1_0000_0000,
        pow256(8) == 0x1_0000_0000_0000_0000,
        pow256(16) == 0x1_0000_0000_0000_0000_0000_0000_0000_0000,
{
    reveal_with_fuel(pow256, 17);
}

/// The least significant byte of `v`.
proof fn lemma_byte_of_zero(v: nat)
    ensures
        byte_of(v, 0) == v % 256,
{
    assert(pow256(0) == 1);
    assert(v / 1 == v);
}

/// Byte `k + 1` of `v` is byte `k` of `v / 256`.
proof fn lemma_byte_of_shift(v: nat, k: nat)
    ensures
        byte_of(v, k + 1) == byte_of(v / 256, k),
{
    lemma_pow256_pos(k);
    lemma_div_denominator(v as int, 256, pow256(k) as int);
    assert(pow256(k + 1) == 256 * pow256(k));
}

/// The bytes of a value that fits in `n` bytes give the value back.
pub proof fn lemma_le_value_of_bytes(v: nat, n: nat)
    requires
        v < pow256(n),
    ensures
        le_value(le_bytes(v, n)) == v,
    decreases n,
{
    if n == 0 {
    } else {
        let s = le_bytes(v, n);
        let t = le_bytes(v / 256, (n - 1) as nat);
        assert forall|k: int| 0 <= k < n - 1 implies s.drop_first()[k] == t[k] by {
            lemma_byte_of_shift(v, k as nat);
        }
        assert(s.drop_first() =~= t);
        lemma_pow256_pos((n - 1) as nat);
        lemma_fundamental_div_mod(v as int, 256);
        assert(v / 256 < pow256((n - 1) as nat)) by {
            if v / 256 >= pow256((n - 1) as nat) {
                lemma_mul_inequality(pow256((n - 1) as nat) as int, v as int / 256, 256);
            }
        }
        lemma_le_value_of_bytes(v / 256, (n - 1) as nat);
        assert(s[0] == byte_of(v, 0));
        lemma_byte_of_zero(v);
    }
}

/// A value read from `s` is below `256^len(s)`, and its bytes are `s`.
pub proof fn lemma_bytes_of_le_value(s: Seq<u8>)
    ensures
        le_value(s) < pow256(s.len()),
        le_bytes(le_value(s), s.len()) == s,
    decreases s.len(),
{
    if s.len() > 0 {
        let t = s.drop_first();
        lemma_bytes_of_le_value(t);
        let v = le_value(s);
        let w = le_value(t);
        assert(v == s[0] as nat + 256 * w);
        lemma_fundamental_div_mod_converse(v as int, 256, w as int, s[0] as int);
        assert(v < pow256(s.len())) by {
            lemma_mul_inequality(w as int + 1, pow256(t.len()) as int, 256);
        }
        assert forall|k: int| 0 <= k < s.len() implies le_bytes(v, s.len())[k] == s[k] by {
            if k == 0 {
                lemma_byte_of_zero(v);
            } else {
                lemma_byte_of_shift(v, (k - 1) as nat);
                assert(le_bytes(w, t.len())[k - 1] == t[k - 1]);
            }
        }
        assert(le_bytes(v, s.len()) =~= s);
    }
}

/// Reading back a byte of a value read from `s` gives the byte of `s`.
pub proof fn lemma_byte_of_le_value(s: Seq<u8>, k: nat)
    requires
        k < s.len(),
    ensures
        byte_of(le_value(s), k) == s[k as int],
{
    lemma_bytes_of_le_value(s);
    assert(le_bytes(le_value(s), s.len())[k as int] == s[k as int]);
}

/// `le_value` of a concatenation.
pub proof fn lemma_le_value_append(x: Seq<u8>, y: Seq<u8>)
    ensures
        le_value(x + y) == le_value(x) + pow256(x.len()) * le_value(y),
    decreases x.len(),
{
    if x.len() == 0 {
        assert(x + y =~= y);
        assert(pow256(0) == 1);
    } else {
        assert((x + y).drop_first() =~= x.drop_first() + y);
        lemma_le_value_append(x.drop_first(), y);
        let a = le_value(x.drop_first()) as int;
        let p = pow256((x.len() - 1) as nat) as int;
        let b = le_value(y) as int;
        assert((x + y)[0] == x[0]);
        assert(le_value(x + y) == x[0] as int + 256 * (a + p * b));
        assert(pow256(x.len()) == 256 * p);
        lemma_mul_is_distributive_add(256, a, p * b);
        lemma_mul_is_associative(256, p, b);
        assert(le_value(x) == x[0] as int + 256 * a);
        assert(pow256(x.len()) * le_value(y) == (256 * p) * b);
        assert(256 * (a + p * b) == 256 * a + (256 * p) * b);
    }
}

/// A run of zero bytes has value zero.
pub proof fn lemma_le_value_zeros(n: nat)
    ensures
        le_value(Seq::new(n, |k: int| 0u8)) == 0,
    decreases n,
{
    if n > 0 {
        assert(Seq::new(n, |k: int| 0u8).drop_first() =~= Seq::new((n - 1) as nat, |k: int| 0u8));
        lemma_le_value_zeros((n - 1) as nat);
    }
}

/// `significance` is a permutation of `0..n` that is its own inverse.
pub proof fn lemma_significance_involution(big: bool, a: nat, n: nat)
    requires
        a < n,
    ensures
        significance(big, a, n) < n,
        significance(big, significance(big, a, n), n) == a,
{
}

/// Division and remainder of `q * a + r` by `a`.
proof fn lemma_div_mod_parts(q: nat, a: nat, r: nat)
    requires
        r < a,
    ensures
        (q * a + r) / a == q,
        (q * a + r) % a == r,
{
    lemma_fundamental_div_mod_converse((q * a + r) as int, a as int, q as int, r as int);
}

/// A word `q` of `n` words of `a` bytes, with a byte offset `r < a`, lies below `n * a`.
proof fn lemma_word_offset_bound(q: nat, n: nat, a: nat, r: nat)
    requires
        q < n,
        r < a,
    ensures
        q * a + r < n * a,
{
    lemma_mul_inequality(q as int + 1, n as int, a as int);
    lemma_mul_is_distributive_add(a as int, q as int, 1);
    lemma_mul_is_commutative(a as int, q as int);
    lemma_mul_is_commutative(a as int, q as int + 1);
}

/// The byte order of a register is a permutation of its byte positions that
/// is its own inverse.
pub proof fn lemma_byte_significance_involution(
    p: nat,
    r: nat,
    a: nat,
    byte_big: bool,
    word_big: bool,
)
    requires
        widths_ok(r, a),
        p < r,
    ensures
        byte_significance(p, r, a, byte_big, word_big) < r,
        byte_significance(byte_significance(p, r, a, byte_big, word_big), r, a, byte_big, word_big)
            == p,
{
    let n = r / a;
    lemma_fundamental_div_mod(r as int, a as int);
    lemma_fundamental_div_mod(p as int, a as int);
    lemma_mul_is_commutative(a as int, n as int);
    lemma_mul_is_commutative(a as int, (p / a) as int);
    assert(p / a < n) by {
        if p / a >= n {
            lemma_mul_inequality(n as int, (p / a) as int, a as int);
        }
    }
    let q = significance(word_big, p / a, n);
    let s = significance(byte_big, p % a, a);
    lemma_significance_involution(word_big, p / a, n);
    lemma_significance_involution(byte_big, p % a, a);
    lemma_div_mod_parts(q, a, s);
    lemma_word_offset_bound(q, n, a, s);
    assert(byte_significance(p, r, a, byte_big, word_big) == q * a + s);
}

/// The significance of the byte at offset `j` of the word at address order
/// `i`.
pub proof fn lemma_byte_significance_in_word(
    i: nat,
    j: nat,
    r: nat,
    a: nat,
    byte_big: bool,
    word_big: bool,
)
    requires
        widths_ok(r, a),
        i < r / a,
        j < a,
    ensures
        i * a + j < r,
        byte_significance(i * a + j, r, a, byte_big, word_big) == significance(
            word_big,
            i,
            r / a,
        ) * a + significance(byte_big, j, a),
{
    lemma_div_mod_parts(i, a, j);
    lemma_fundamental_div_mod(r as int, a as int);
    lemma_mul_is_commutative(a as int, (r / a) as int);
    lemma_word_offset_bound(i, r / a, a, j);
}

/// Reading a register laid out from `v` gives `v` back.
pub proof fn lemma_register_value_of_layout(
    v: nat,
    r: nat,
    a: nat,
    byte_big: bool,
    word_big: bool,
)
    requires
        widths_ok(r, a),
        v < pow256(r),
    ensures
        register_layout(v, r, a, byte_big, word_big).len() == r,
        register_value(register_layout(v, r, a, byte_big, word_big), a, byte_big, word_big) == v,
{
    let b = register_layout(v, r, a, byte_big, word_big);
    let c = Seq::new(
        b.len(),
        |k: int| b[byte_significance(k as nat, b.len(), a, byte_big, word_big) as int],
    );
    assert forall|k: int| 0 <= k < r implies c[k] == le_bytes(v, r)[k] by {
        lemma_byte_significance_involution(k as nat, r, a, byte_big, word_big);
    }
    assert(c =~= le_bytes(v, r));
    lemma_le_value_of_bytes(v, r);
}

/// Laying out the value read from a register's bytes gives the bytes back.
pub proof fn lemma_layout_of_register_value(b: Seq<u8>, a: nat, byte_big: bool, word_big: bool)
    requires
        widths_ok(b.len(), a),
    ensures
        register_value(b, a, byte_big, word_big) < pow256(b.len()),
        register_layout(register_value(b, a, byte_big, word_big), b.len(), a, byte_big, word_big)
            == b,
{
    let r = b.len();
    let c = Seq::new(
        r,
        |k: int| b[byte_significance(k as nat, r, a, byte_big, word_big) as int],
    );
    lemma_bytes_of_le_value(c);
    let v = le_value(c);
    assert forall|p: int| 0 <= p < r implies register_layout(v, r, a, byte_big, word_big)[p]
        == b[p] by {
        lemma_byte_significance_involution(p as nat, r, a, byte_big, word_big);
        let k = byte_significance(p as nat, r, a, byte_big, word_big);
        lemma_byte_of_le_value(c, k);
    }
    assert(register_layout(v, r, a, byte_big, word_big) =~= b);
}

/// Byte `t` of the `a`-byte word of `v` that starts at byte `m` is byte
/// `m + t` of `v`.
pub proof fn lemma_byte_of_subword(v: nat, m: nat, a: nat, t: nat)
    requires
        t < a,
    ensures
        byte_of((v / pow256(m)) % pow256(a), t) == byte_of(v, m + t),
{
    let x: int = (v / pow256(m)) as int;
    let p: int = pow256(t) as int;
    let q: int = pow256((a - t) as nat) as int;
    lemma_pow256_pos(m);
    lemma_pow256_pos(t);
    lemma_pow256_pos((a - t) as nat);
    lemma_pow256_add(t, (a - t) as nat);
    assert(pow256(a) == p * q);
    // (x % (p * q)) / p == (x / p) % q
    lemma_mod_breakdown(x, p, q);
    lemma_mod_bound(x, p);
    let d: int = (x / p) % q;
    lemma_mod_bound(x / p, q);
    lemma_mul_is_commutative(p, d);
    lemma_div_mod_parts(d as nat, p as nat, (x % p) as nat);
    assert((x % (p * q)) / p == d);
    // ((x / p) % q) % 256 == (x / p) % 256, since q is a multiple of 256
    let q1: int = pow256((a - t - 1) as nat) as int;
    lemma_pow256_pos((a - t - 1) as nat);
    assert(q == 256 * q1);
    lemma_div_pos_is_pos(x, p);
    lemma_mod_mod(x / p, 256, q1);
    // x / p == v / pow256(m + t)
    lemma_div_denominator(v as int, pow256(m) as int, p);
    lemma_pow256_add(m, t);
}

/// The word layout of a word is a slice of the register layout.
pub proof fn lemma_word_layout_in_register(
    v: nat,
    i: nat,
    r: nat,
    a: nat,
    byte_big: bool,
    word_big: bool,
)
    requires
        widths_ok(r, a),
        i < r / a,
    ensures
        ({
            let s = significance(word_big, i, r / a);
            let w = (v / pow256(s * a)) % pow256(a);
            &&& (i + 1) * a <= r
            &&& word_layout(w, a, byte_big) == register_layout(v, r, a, byte_big, word_big).subrange(
                (i * a) as int,
                ((i + 1) * a) as int,
            )
        }),
{
    let n = r / a;
    let s = significance(word_big, i, n);
    let w = (v / pow256(s * a)) % pow256(a);
    lemma_byte_significance_in_word(i, 0, r, a, byte_big, word_big);
    lemma_mul_is_distributive_add(a as int, i as int, 1);
    lemma_mul_is_commutative(a as int, i as int);
    lemma_mul_is_commutative(a as int, (i + 1) as int);
    lemma_fundamental_div_mod(r as int, a as int);
    lemma_mul_is_commutative(a as int, n as int);
    lemma_mul_inequality((i + 1) as int, n as int, a as int);
    let lay = register_layout(v, r, a, byte_big, word_big);
    assert forall|j: int| 0 <= j < a implies word_layout(w, a, byte_big)[j] == lay[i * a + j] by {
        lemma_byte_significance_in_word(i, j as nat, r, a, byte_big, word_big);
        lemma_significance_involution(byte_big, j as nat, a);
        lemma_byte_of_subword(v, s * a, a, significance(byte_big, j as nat, a));
    }
    assert(word_layout(w, a, byte_big) =~= lay.subrange((i * a) as int, ((i + 1) * a) as int));
}

/// Reading a word and laying it out again gives its bytes back.
pub proof fn lemma_word_layout_of_value(b: Seq<u8>, big: bool)
    ensures
        word_value(b, big) < pow256(b.len()),
        word_layout(word_value(b, big), b.len(), big) == b,
{
    let n = b.len();
    let c = Seq::new(n, |k: int| b[significance(big, k as nat, n) as int]);
    lemma_bytes_of_le_value(c);
    assert forall|j: int| 0 <= j < n implies word_layout(le_value(c), n, big)[j] == b[j] by {
        lemma_significance_involution(big, j as nat, n);
        lemma_byte_of_le_value(c, significance(big, j as nat, n));
    }
    assert(word_layout(le_value(c), n, big) =~= b);
}

/// Laying out a word and reading it gives the word back.
pub proof fn lemma_word_value_of_layout(w: nat, a: nat, big: bool)
    requires
        w < pow256(a),
    ensures
        word_value(word_layout(w, a, big), big) == w,
{
    let b = word_layout(w, a, big);
    let c = Seq::new(a, |k: int| b[significance(big, k as nat, a) as int]);
    assert forall|k: int| 0 <= k < a implies c[k] == le_bytes(w, a)[k] by {
        lemma_significance_involution(big, k as nat, a);
    }
    assert(c =~= le_bytes(w, a));
    lemma_le_value_of_bytes(w, a);
}

/// `mem` with the bytes from `addr` on replaced by `b`.
pub open spec fn written(mem: Seq<u8>, addr: nat, b: Seq<u8>) -> Seq<u8> {
    Seq::new(
        mem.len(),
        |k: int| if addr <= k < addr + b.len() { b[k - addr] } else { mem[k] },
    )
}

/// `new` is `old` but for the bytes at `lo..hi`.
pub open spec fn unchanged_outside(old: Seq<u8>, new: Seq<u8>, lo: int, hi: int) -> bool {
    &&& new.len() == old.len()
    &&& forall|k: int| 0 <= k < old.len() && !(lo <= k < hi) ==> #[trigger] new[k] == old[k]
}

/// A write of the bytes `b`, word of `a` bytes after word, starting at
/// `addr`, that stopped at some word `k`: the words before `k` are
/// written, the bytes after word `k` are untouched, and only the bytes of
/// word `k` itself are unknown.
pub open spec fn interrupted_write(old: Seq<u8>, new: Seq<u8>, addr: nat, b: Seq<u8>, a: nat) -> bool {
    exists|k: nat|
        k * a < b.len() && #[trigger] unchanged_outside(
            written(old, addr, b.subrange(0, (k * a) as int)),
            new,
            (addr + k * a) as int,
            (addr + k * a + a) as int,
        )
}

/// A write that wrote the words before `k` and touched nothing outside word
/// `k` is an interrupted write.
pub proof fn lemma_interrupted_at(old: Seq<u8>, new: Seq<u8>, addr: nat, b: Seq<u8>, a: nat, k: nat)
    requires
        k * a < b.len(),
        unchanged_outside(
            written(old, addr, b.subrange(0, (k * a) as int)),
            new,
            (addr + k * a) as int,
            (addr + k * a + a) as int,
        ),
    ensures
        interrupted_write(old, new, addr, b, a),
{
}

/// Writing a slice and then the next slice is writing both at once.
pub proof fn lemma_written_extend(mem: Seq<u8>, addr: nat, b: Seq<u8>, lo: nat, hi: nat)
    requires
        lo <= hi <= b.len(),
        addr + b.len() <= mem.len(),
    ensures
        written(written(mem, addr, b.subrange(0, lo as int)), addr + lo, b.subrange(lo as int, hi as int))
            == written(mem, addr, b.subrange(0, hi as int)),
{
    assert(written(written(mem, addr, b.subrange(0, lo as int)), addr + lo, b.subrange(lo as int, hi as int))
        =~= written(mem, addr, b.subrange(0, hi as int)));
}

/// The bytes of a register read so far: the bytes, in significance order,
/// of the words whose address order is below `i`; zero elsewhere.
pub open spec fn read_progress(b: Seq<u8>, a: nat, byte_big: bool, word_big: bool, i: nat) -> Seq<u8> {
    Seq::new(
        b.len(),
        |k: int|
            if significance(word_big, k as nat / a, b.len() / a) < i {
                b[byte_significance(k as nat, b.len(), a, byte_big, word_big) as int]
            } else {
                0u8
            },
    )
}

/// Filling a block of zero bytes with `w` adds the value of `w`, scaled to
/// the block's position.
pub proof fn lemma_le_value_fill_block(x: Seq<u8>, y: Seq<u8>, start: nat, w: Seq<u8>)
    requires
        start + w.len() <= x.len(),
        y.len() == x.len(),
        forall|k: int| start <= k < start + w.len() ==> x[k] == 0u8 && y[k] == w[k - start],
        forall|k: int| 0 <= k < x.len() && !(start <= k < start + w.len()) ==> y[k] == x[k],
    ensures
        le_value(y) == le_value(x) + pow256(start) * le_value(w),
{
    let e = start + w.len();
    let p = x.subrange(0, start as int);
    let z = x.subrange(start as int, e as int);
    let q = x.subrange(e as int, x.len() as int);
    assert(x =~= p + (z + q));
    assert(y =~= p + (w + q));
    assert(z =~= Seq::new(w.len(), |k: int| 0u8));
    lemma_le_value_zeros(w.len());
    lemma_le_value_append(p, z + q);
    lemma_le_value_append(z, q);
    lemma_le_value_append(p, w + q);
    lemma_le_value_append(w, q);
    let ps = pow256(start) as int;
    let lw = le_value(w) as int;
    let rest = (pow256(w.len()) * le_value(q)) as int;
    lemma_mul_is_distributive_add(ps, lw, rest);
}

/// The word index of a byte offset inside a register.
proof fn lemma_word_index(k: nat, r: nat, a: nat)
    requires
        widths_ok(r, a),
        k < r,
    ensures
        k / a < r / a,
        k == (k / a) * a + k % a,
        k % a < a,
{
    lemma_fundamental_div_mod(r as int, a as int);
    lemma_fundamental_div_mod(k as int, a as int);
    lemma_mod_bound(k as int, a as int);
    lemma_mul_is_commutative(a as int, (r / a) as int);
    lemma_mul_is_commutative(a as int, (k / a) as int);
    if k / a >= r / a {
        lemma_mul_inequality((r / a) as int, (k / a) as int, a as int);
    }
}

/// Nothing is read before the first word.
pub proof fn lemma_read_progress_start(b: Seq<u8>, a: nat, byte_big: bool, word_big: bool)
    requires
        a > 0,
    ensures
        le_value(read_progress(b, a, byte_big, word_big, 0)) == 0,
{
    assert forall|k: int| 0 <= k < b.len() implies read_progress(b, a, byte_big, word_big, 0)[k]
        == 0u8 by {}
    assert(read_progress(b, a, byte_big, word_big, 0) =~= Seq::new(b.len(), |k: int| 0u8));
    lemma_le_value_zeros(b.len());
}

/// Once every word is read, the bytes read are all the bytes.
pub proof fn lemma_read_progress_end(b: Seq<u8>, a: nat, byte_big: bool, word_big: bool)
    requires
        widths_ok(b.len(), a),
    ensures
        le_value(read_progress(b, a, byte_big, word_big, b.len() / a)) == register_value(
            b,
            a,
            byte_big,
            word_big,
        ),
{
    let r = b.len();
    let n = r / a;
    assert forall|k: int| 0 <= k < r implies #[trigger] significance(word_big, k as nat / a, n) < n by {
        lemma_word_index(k as nat, r, a);
        lemma_significance_involution(word_big, k as nat / a, n);
    }
    assert(read_progress(b, a, byte_big, word_big, n) =~= Seq::new(
        r,
        |k: int| b[byte_significance(k as nat, r, a, byte_big, word_big) as int],
    ));
}

/// Reading the word at address order `i` adds its value at its significance.
pub proof fn lemma_read_progress_step(
    b: Seq<u8>,
    a: nat,
    byte_big: bool,
    word_big: bool,
    i: nat,
)
    requires
        widths_ok(b.len(), a),
        i < b.len() / a,
    ensures
        (i + 1) * a <= b.len(),
        le_value(read_progress(b, a, byte_big, word_big, i + 1)) == le_value(
            read_progress(b, a, byte_big, word_big, i),
        ) + pow256(significance(word_big, i, b.len() / a) * a) * word_value(
            b.subrange((i * a) as int, ((i + 1) * a) as int),
            byte_big,
        ),
        le_value(read_progress(b, a, byte_big, word_big, i + 1)) < pow256(b.len()),
{
    let r = b.len();
    let n = r / a;
    let s = significance(word_big, i, n);
    lemma_significance_involution(word_big, i, n);
    lemma_word_layout_in_register(0, i, r, a, byte_big, word_big);
    lemma_word_layout_in_register(0, s, r, a, byte_big, word_big);
    lemma_mul_is_distributive_add(a as int, s as int, 1);
    lemma_mul_is_commutative(a as int, s as int);
    lemma_mul_is_commutative(a as int, (s + 1) as int);
    assert(s * a + a <= r);
    let x = read_progress(b, a, byte_big, word_big, i);
    let y = read_progress(b, a, byte_big, word_big, i + 1);
    let word = b.subrange((i * a) as int, ((i + 1) * a) as int);
    let w = Seq::new(a, |t: int| word[significance(byte_big, t as nat, a) as int]);
    lemma_mul_is_distributive_add(a as int, i as int, 1);
    lemma_mul_is_commutative(a as int, i as int);
    lemma_mul_is_commutative(a as int, (i + 1) as int);
    assert(word.len() == a);
    assert forall|k: int| s * a <= k < s * a + w.len() implies x[k] == 0u8 && y[k] == w[k - s * a] by {
        let t = (k - s * a) as nat;
        assert(t < a);
        lemma_div_mod_parts(s, a, t);
        assert(k as nat / a == s);
        assert(significance(word_big, k as nat / a, n) == i);
        assert(x[k] == 0u8);
        lemma_byte_significance_in_word(s, t, r, a, byte_big, word_big);
        lemma_significance_involution(byte_big, t, a);
        let u = significance(byte_big, t, a);
        assert(byte_significance(k as nat, r, a, byte_big, word_big) == i * a + u);
        assert(y[k] == b[(i * a + u) as int]);
        assert(w[t as int] == word[u as int]);
        assert(word[u as int] == b[(i * a + u) as int]);
    }
    assert forall|k: int| 0 <= k < x.len() && !(s * a <= k < s * a + w.len()) implies y[k] == x[k] by {
        lemma_word_index(k as nat, r, a);
        if k as nat / a == s {
            assert(false);
        }
        lemma_significance_involution(word_big, k as nat / a, n);
    }
    lemma_le_value_fill_block(x, y, s * a, w);
    lemma_bytes_of_le_value(y);
}
/// Facts on the widths of primitive integers, in bytes, that the layout needs.
pub proof fn lemma_int_widths(r: nat, a: nat)
    requires
        is_int_width(r),
        is_int_width(a),
        a <= r,
    ensures
        widths_ok(r, a),
        r / a >= 1,
        (r / a) * a == r,
        r / a == 1 <==> r == a,
        r / a > 1 ==> a <= 8,
        r <= 16,
{
    if a == 1 {
    } else if a == 2 {
        if r == 2 {} else if r == 4 {} else if r == 8 {} else {}
    } else if a == 4 {
        if r == 4 {} else if r == 8 {} else {}
    } else if a == 8 {
        if r == 8 {} else {}
    } else {
    }
}

/// A register of a single word is laid out, and read, as that word: the
/// one-access path for such registers and the word-by-word path agree.
pub proof fn lemma_single_word_register(v: nat, b: Seq<u8>, a: nat, byte_big: bool, word_big: bool)
    requires
        a > 0,
        b.len() == a,
    ensures
        register_layout(v, a, a, byte_big, word_big) == word_layout(v, a, byte_big),
        register_value(b, a, byte_big, word_big) == word_value(b, byte_big),
{
    assert forall|p: nat| p < a implies byte_significance(p, a, a, byte_big, word_big)
        == significance(byte_big, p, a) by {
        assert(p / a == 0 && p % a == p && a / a == 1) by (nonlinear_arith)
            requires
                p < a,
                a > 0,
        ;
        assert(significance(word_big, p / a, a / a) == 0);
        assert(significance(word_big, p / a, a / a) * a == 0);
    }
    assert(register_layout(v, a, a, byte_big, word_big) =~= word_layout(v, a, byte_big));
    assert(Seq::new(
        b.len(),
        |k: int| b[byte_significance(k as nat, b.len(), a, byte_big, word_big) as int],
    ) =~= Seq::new(b.len(), |k: int| b[significance(byte_big, k as nat, b.len()) as int]));
}

/// The word at address order `i` of a register is the word of significance
/// `i` (little-endian words) or `n - 1 - i` (big-endian words, `n` words in
/// all), its bytes least significant first (little-endian bytes) or most
/// significant first (big-endian bytes).
pub proof fn lemma_register_word_order(v: nat, r: nat, a: nat, byte_big: bool, word_big: bool, i: nat)
    requires
        widths_ok(r, a),
        i < r / a,
    ensures
        ({
            let n = r / a;
            let s: nat = if word_big {
                (n - 1 - i) as nat
            } else {
                i
            };
            let w = (v / pow256(s * a)) % pow256(a);
            &&& (i + 1) * a <= r
            &&& register_layout(v, r, a, byte_big, word_big).subrange(
                (i * a) as int,
                ((i + 1) * a) as int,
            ) == if byte_big {
                le_bytes(w, a).reverse()
            } else {
                le_bytes(w, a)
            }
        }),
{
    lemma_word_layout_in_register(v, i, r, a, byte_big, word_big);
    let n = r / a;
    let s = significance(word_big, i, n);
    let w = (v / pow256(s * a)) % pow256(a);
    assert(a % a == 0) by (nonlinear_arith)
        requires
            a > 0,
    ;
    lemma_single_word_register(w, Seq::new(a, |k: int| 0u8), a, byte_big, byte_big);
    if byte_big {
        lemma_big_endian_layout(w, a, a);
    } else {
        lemma_little_endian_layout(w, a, a);
    }
}

/// With little-endian bytes and words, the lowest address holds the least
/// significant byte, whatever the access width.
pub proof fn lemma_little_endian_layout(v: nat, r: nat, a: nat)
    requires
        widths_ok(r, a),
    ensures
        register_layout(v, r, a, false, false) == le_bytes(v, r),
{
    assert forall|p: int| 0 <= p < r implies register_layout(v, r, a, false, false)[p] == le_bytes(
        v,
        r,
    )[p] by {
        lemma_word_index(p as nat, r, a);
    }
    assert(register_layout(v, r, a, false, false) =~= le_bytes(v, r));
}

/// With big-endian bytes and words, the lowest address holds the most
/// significant byte, whatever the access width.
pub proof fn lemma_big_endian_layout(v: nat, r: nat, a: nat)
    requires
        widths_ok(r, a),
    ensures
        register_layout(v, r, a, true, true) == le_bytes(v, r).reverse(),
{
    assert forall|p: int| 0 <= p < r implies register_layout(v, r, a, true, true)[p] == le_bytes(
        v,
        r,
    ).reverse()[p] by {
        lemma_word_index(p as nat, r, a);
        let n = r / a;
        let q = p as nat / a;
        lemma_fundamental_div_mod(r as int, a as int);
        lemma_mul_is_commutative(a as int, n as int);
        lemma_mul_is_distributive_add(a as int, (n - 1 - q) as int, q as int + 1);
        lemma_mul_is_commutative(a as int, (n - 1 - q) as int);
        lemma_mul_is_commutative(a as int, (q + 1) as int);
        lemma_mul_is_distributive_add(a as int, q as int, 1);
        lemma_mul_is_commutative(a as int, q as int);
        assert(byte_significance(p as nat, r, a, true, true) == r - 1 - p);
    }
    assert(register_layout(v, r, a, true, true) =~= le_bytes(v, r).reverse());
}

} // verus!
