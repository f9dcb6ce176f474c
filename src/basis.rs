use vstd::prelude::*;
use vstd::arithmetic::power2::{pow2, lemma_pow2_unfold, lemma_pow2_strictly_increases, lemma2_to64};

verus! {

/// Number of basis states of `n` qubits, which is also the side of their density matrix.
pub open spec fn dim_of(n: nat) -> nat {
    pow2(n)
}

/// Place value of `wire` in a basis index of `n` qubits: wire 0 is the most significant bit.
pub open spec fn weight_of(wire: nat, n: nat) -> nat {
    pow2((n - 1 - wire) as nat)
}

/// The bit that basis index `i` holds for `wire`.
pub open spec fn bit_of(i: nat, wire: nat, n: nat) -> nat {
    (i / weight_of(wire, n)) % 2
}

proof fn lemma_pow2_monotone(a: nat, b: nat)
    requires
        a <= b,
    ensures
        0 < pow2(a) <= pow2(b),
{
    vstd::arithmetic::power2::lemma_pow2_pos(a);
    if a < b {
        lemma_pow2_strictly_increases(a, b);
    }
}

/// Side length of the density matrix of `n` qubits: `2^n`.
pub fn dimension(n: usize) -> (r: usize)
    requires
        dim_of(n as nat) <= usize::MAX,
    ensures
        r == dim_of(n as nat),
{
    let mut d: usize = 1;
    let mut k: usize = 0;
    proof {
        lemma2_to64();
    }
    while k < n
        invariant
            k <= n,
            pow2(n as nat) <= usize::MAX,
            d == pow2(k as nat),
        decreases n - k,
    {
        proof {
            lemma_pow2_unfold((k + 1) as nat);
            lemma_pow2_monotone((k + 1) as nat, n as nat);
        }
        d = d * 2;
        k = k + 1;
    }
    d
}

/// Basis index `i` with the bit of `wire` inverted: the action of X on that wire.
pub open spec fn flip_of(i: nat, wire: nat, n: nat) -> nat {
    if bit_of(i, wire, n) == 1 {
        (i - weight_of(wire, n)) as nat
    } else {
        i + weight_of(wire, n)
    }
}

/// Where CNOT sends basis index `i`: the target bit flips when the control bit is set.
pub open spec fn cnot_of(i: nat, control: nat, target: nat, n: nat) -> nat {
    if bit_of(i, control, n) == 1 {
        flip_of(i, target, n)
    } else {
        i
    }
}

/// Basis index `i` with the bit of `wire` set to 0.
pub open spec fn clear_of(i: nat, wire: nat, n: nat) -> nat {
    if bit_of(i, wire, n) == 1 {
        (i - weight_of(wire, n)) as nat
    } else {
        i
    }
}

proof fn lemma_weight(wire: nat, n: nat)
    requires
        wire < n,
    ensures
        0 < weight_of(wire, n) <= pow2(n),
        pow2(n) == weight_of(wire, n) * pow2(wire + 1),
        pow2(wire + 1) == 2 * pow2(wire),
{
    lemma_pow2_monotone((n - 1 - wire) as nat, n);
    vstd::arithmetic::power2::lemma_pow2_adds((n - 1 - wire) as nat, wire + 1);
    lemma_pow2_unfold(wire + 1);
}

/// Flipping a wire keeps the index in range and inverts exactly that wire's bit.
proof fn lemma_flip(i: nat, wire: nat, n: nat)
    requires
        wire < n,
        i < pow2(n),
    ensures
        flip_of(i, wire, n) < pow2(n),
        bit_of(i, wire, n) == 1 ==> weight_of(wire, n) <= i,
        bit_of(flip_of(i, wire, n), wire, n) == 1 - bit_of(i, wire, n),
        flip_of(i, wire, n) % weight_of(wire, n) == i % weight_of(wire, n),
        flip_of(i, wire, n) / weight_of(wire, n) / 2 == i / weight_of(wire, n) / 2,
{
    let w = weight_of(wire, n) as int;
    let m = pow2(wire + 1) as int;
    lemma_weight(wire, n);
    let q = (i as int) / w;
    let r = (i as int) % w;
    vstd::arithmetic::div_mod::lemma_fundamental_div_mod(i as int, w);
    assert(q < m) by (nonlinear_arith)
        requires
            i == w * q + r,
            0 <= r < w,
            i < w * m,
            0 < w,
    ;
    assert(0 <= q) by (nonlinear_arith)
        requires
            i == w * q + r,
            0 <= r < w,
            0 <= i,
            0 < w,
    ;
    if q % 2 == 0 {
        assert(q + 2 <= m);
        let j = (i as int) + w;
        assert(j == (q + 1) * w + r) by (nonlinear_arith)
            requires
                i == w * q + r,
                j == i + w,
        ;
        vstd::arithmetic::div_mod::lemma_fundamental_div_mod_converse(j, w, q + 1, r);
        assert(j < w * m) by (nonlinear_arith)
            requires
                j == (q + 1) * w + r,
                q + 2 <= m,
                r < w,
                0 < w,
        ;
        assert((q + 1) / 2 == q / 2);
    } else {
        assert(q >= 1);
        assert(w <= i) by (nonlinear_arith)
            requires
                i == w * q + r,
                q >= 1,
                0 <= r,
        ;
        let j = (i as int) - w;
        assert(j == (q - 1) * w + r) by (nonlinear_arith)
            requires
                i == w * q + r,
                j == i - w,
        ;
        vstd::arithmetic::div_mod::lemma_fundamental_div_mod_converse(j, w, q - 1, r);
        assert((q - 1) / 2 == q / 2);
    }
}

/// Place value of `wire` in a basis index of `n` qubits.
pub fn wire_weight(wire: usize, n: usize) -> (r: usize)
    requires
        wire < n,
        dim_of(n as nat) <= usize::MAX,
    ensures
        r == weight_of(wire as nat, n as nat),
        0 < r <= dim_of(n as nat),
{
    proof {
        lemma_weight(wire as nat, n as nat);
    }
    dimension(n - 1 - wire)
}

/// The bit of `wire` in basis index `index` (wire 0 is the most significant).
pub fn wire_bit(index: usize, wire: usize, n: usize) -> (r: usize)
    requires
        wire < n,
        dim_of(n as nat) <= usize::MAX,
    ensures
        r == bit_of(index as nat, wire as nat, n as nat),
        r < 2,
{
    (index / wire_weight(wire, n)) % 2
}

/// Basis index `index` with the bit of `wire` inverted.
pub fn flip_wire(index: usize, wire: usize, n: usize) -> (r: usize)
    requires
        wire < n,
        index < dim_of(n as nat),
        dim_of(n as nat) <= usize::MAX,
    ensures
        r == flip_of(index as nat, wire as nat, n as nat),
        r < dim_of(n as nat),
{
    proof {
        lemma_flip(index as nat, wire as nat, n as nat);
    }
    let w = wire_weight(wire, n);
    if wire_bit(index, wire, n) == 1 {
        index - w
    } else {
        index + w
    }
}


/// Where CNOT with the given control and target sends basis index `index`.
pub fn cnot_image(index: usize, control: usize, target: usize, n: usize) -> (r: usize)
    requires
        control < n,
        target < n,
        index < dim_of(n as nat),
        dim_of(n as nat) <= usize::MAX,
    ensures
        r == cnot_of(index as nat, control as nat, target as nat, n as nat),
        r < dim_of(n as nat),
{
    if wire_bit(index, control, n) == 1 {
        flip_wire(index, target, n)
    } else {
        index
    }
}

/// The CNOT gate on `n` qubits as a permutation of basis indices: entry `i` is the
/// index that basis state `i` is sent to. Control and target may be any wires.
pub fn cnot_permutation(control: usize, target: usize, n: usize) -> (r: Vec<usize>)
    requires
        control < n,
        target < n,
        dim_of(n as nat) <= usize::MAX,
    ensures
        r@.len() == dim_of(n as nat),
        forall|i: int|
            0 <= i < r@.len() ==> #[trigger] r@[i] == cnot_of(
                i as nat,
                control as nat,
                target as nat,
                n as nat,
            ),
        forall|i: int| 0 <= i < r@.len() ==> #[trigger] r@[i] < dim_of(n as nat),
        control != target ==> forall|i: int|
            0 <= i < r@.len() ==> #[trigger] r@[r@[i] as int] == i,
{
    let d = dimension(n);
    let mut r: Vec<usize> = Vec::with_capacity(d);
    let mut i: usize = 0;
    while i < d
        invariant
            d == dim_of(n as nat),
            dim_of(n as nat) <= usize::MAX,
            control < n,
            target < n,
            i <= d,
            r@.len() == i,
            forall|j: int|
                0 <= j < i ==> #[trigger] r@[j] == cnot_of(
                    j as nat,
                    control as nat,
                    target as nat,
                    n as nat,
                ),
        decreases d - i,
    {
        r.push(cnot_image(i, control, target, n));
        i = i + 1;
    }
    proof {
        assert forall|i: int| 0 <= i < r@.len() implies #[trigger] r@[i] < dim_of(n as nat) && (
        control != target ==> r@[r@[i] as int] == i) by {
            if control != target {
                lemma_cnot_twice(i as nat, control as nat, target as nat, n as nat);
            } else {
                lemma_flip(i as nat, target as nat, n as nat);
            }
        }
    }
    r
}

/// From the ground state |0…0⟩, X on `control` followed by CNOT(`control`, `target`)
/// reaches the basis state whose only set bits are those of `control` and `target`.
pub proof fn lemma_x_then_cnot_from_ground(control: nat, target: nat, n: nat)
    requires
        control < n,
        target < n,
        control != target,
    ensures
        cnot_of(flip_of(0, control, n), control, target, n) == weight_of(control, n) + weight_of(
            target,
            n,
        ),
{
    lemma_weight(control, n);
    lemma_weight(target, n);
    assert(bit_of(0, control, n) == 0);
    assert(bit_of(0, target, n) == 0);
    lemma_flip(0, control, n);
    lemma_flip_keeps_other(0, control, target, n);
}

/// Basis indices `a` and `b` hold the same bit on every wire but `wire`.
pub open spec fn agree_except(a: nat, b: nat, wire: nat, n: nat) -> bool {
    forall|u: nat| u < n && u != wire ==> #[trigger] bit_of(a, u, n) == bit_of(b, u, n)
}

/// Dropping the last wire halves the index and keeps the bits of the other wires.
proof fn lemma_bit_of_half(x: nat, u: nat, n: nat)
    requires
        u + 1 < n,
    ensures
        bit_of(x, u, n) == bit_of(x / 2, u, (n - 1) as nat),
{
    let w = weight_of(u, (n - 1) as nat);
    lemma_pow2_unfold((n - 1 - u) as nat);
    vstd::arithmetic::power2::lemma_pow2_pos((n - 2 - u) as nat);
    vstd::arithmetic::div_mod::lemma_div_denominator(x as int, 2, w as int);
}

/// Indices below `2^n` with the same bit on every wire are equal.
proof fn lemma_bits_determine(x: nat, y: nat, n: nat)
    requires
        x < pow2(n),
        y < pow2(n),
        forall|u: nat| u < n ==> #[trigger] bit_of(x, u, n) == bit_of(y, u, n),
    ensures
        x == y,
    decreases n,
{
    if n == 0 {
        vstd::arithmetic::power2::lemma2_to64();
    } else {
        lemma_pow2_unfold(n);
        vstd::arithmetic::power2::lemma2_to64();
        assert(weight_of((n - 1) as nat, n) == 1);
        assert(bit_of(x, (n - 1) as nat, n) == bit_of(y, (n - 1) as nat, n));
        assert(x / 1 == x && y / 1 == y);
        assert(x % 2 == y % 2);
        assert forall|u: nat| u < (n - 1) as nat implies #[trigger] bit_of(x / 2, u, (n - 1) as nat)
            == bit_of(y / 2, u, (n - 1) as nat) by {
            lemma_bit_of_half(x, u, n);
            lemma_bit_of_half(y, u, n);
            assert(bit_of(x, u, n) == bit_of(y, u, n));
        }
        lemma_bits_determine(x / 2, y / 2, (n - 1) as nat);
    }
}

/// Clearing a wire's bit sets that bit to 0, keeps every other bit, and stays in range.
proof fn lemma_clear(i: nat, wire: nat, n: nat)
    requires
        wire < n,
        i < pow2(n),
    ensures
        clear_of(i, wire, n) < pow2(n),
        bit_of(clear_of(i, wire, n), wire, n) == 0,
        forall|u: nat|
            u < n && u != wire ==> #[trigger] bit_of(clear_of(i, wire, n), u, n) == bit_of(
                i,
                u,
                n,
            ),
{
    lemma_flip(i, wire, n);
    if bit_of(i, wire, n) == 1 {
        assert(clear_of(i, wire, n) == flip_of(i, wire, n));
        assert forall|u: nat| u < n && u != wire implies #[trigger] bit_of(
            clear_of(i, wire, n),
            u,
            n,
        ) == bit_of(i, u, n) by {
            lemma_flip_keeps_other(i, wire, u, n);
        }
    } else {
        assert(clear_of(i, wire, n) == i);
    }
}

/// Two indices agree on every wire but `wire` exactly when clearing that wire's bit
/// makes them equal.
proof fn lemma_agree_except(a: nat, b: nat, wire: nat, n: nat)
    requires
        wire < n,
        a < pow2(n),
        b < pow2(n),
    ensures
        agree_except(a, b, wire, n) <==> clear_of(a, wire, n) == clear_of(b, wire, n),
{
    lemma_clear(a, wire, n);
    lemma_clear(b, wire, n);
    let ca = clear_of(a, wire, n);
    let cb = clear_of(b, wire, n);
    if agree_except(a, b, wire, n) {
        assert forall|u: nat| u < n implies #[trigger] bit_of(ca, u, n) == bit_of(cb, u, n) by {
            if u != wire {
                assert(bit_of(a, u, n) == bit_of(b, u, n));
            }
        }
        lemma_bits_determine(ca, cb, n);
    }
    if ca == cb {
        assert forall|u: nat| u < n && u != wire implies #[trigger] bit_of(a, u, n) == bit_of(
            b,
            u,
            n,
        ) by {
            assert(bit_of(ca, u, n) == bit_of(a, u, n));
            assert(bit_of(cb, u, n) == bit_of(b, u, n));
        }
    }
}

/// Where entry (`row`, `col`) of the `n`-qubit embedding of a one-qubit operator on
/// `wire` comes from. The embedding is the operator on `wire` and the identity on
/// every other wire, so the entry is the operator's entry at the two bits of `wire`
/// when `row` and `col` agree on every other wire, and zero (`None`) otherwise.
pub fn embedded_entry(row: usize, col: usize, wire: usize, n: usize) -> (r: Option<(usize, usize)>)
    requires
        wire < n,
        row < dim_of(n as nat),
        col < dim_of(n as nat),
        dim_of(n as nat) <= usize::MAX,
    ensures
        r == (if agree_except(row as nat, col as nat, wire as nat, n as nat) {
            Some(
                (
                    bit_of(row as nat, wire as nat, n as nat) as usize,
                    bit_of(col as nat, wire as nat, n as nat) as usize,
                ),
            )
        } else {
            None
        }),
{
    let w = wire_weight(wire, n);
    let a = wire_bit(row, wire, n);
    let b = wire_bit(col, wire, n);
    proof {
        lemma_agree_except(row as nat, col as nat, wire as nat, n as nat);
        lemma_flip(row as nat, wire as nat, n as nat);
        lemma_flip(col as nat, wire as nat, n as nat);
    }
    let cleared_row = if a == 1 { row - w } else { row };
    let cleared_col = if b == 1 { col - w } else { col };
    if cleared_row == cleared_col {
        Some((a, b))
    } else {
        None
    }
}

/// The bits of basis index `outcome`, one per wire, wire 0 first.
pub fn outcome_bits(outcome: usize, n: usize) -> (r: Vec<usize>)
    requires
        dim_of(n as nat) <= usize::MAX,
    ensures
        r@.len() == n,
        forall|i: int|
            0 <= i < n ==> #[trigger] r@[i] == bit_of(outcome as nat, i as nat, n as nat),
{
    let mut r: Vec<usize> = Vec::with_capacity(n);
    let mut i: usize = 0;
    while i < n
        invariant
            i <= n,
            dim_of(n as nat) <= usize::MAX,
            r@.len() == i,
            forall|j: int|
                0 <= j < i ==> #[trigger] r@[j] == bit_of(outcome as nat, j as nat, n as nat),
        decreases n - i,
    {
        r.push(wire_bit(outcome, i, n));
        i = i + 1;
    }
    r
}

/// X applied twice on a wire gives every basis index back: the embedded X, as a
/// permutation of basis indices, is its own inverse.
pub proof fn lemma_flip_twice(i: nat, wire: nat, n: nat)
    requires
        wire < n,
        i < dim_of(n),
    ensures
        flip_of(flip_of(i, wire, n), wire, n) == i,
{
    lemma_flip(i, wire, n);
}

/// Flipping one wire leaves the bit of every other wire as it was.
proof fn lemma_flip_keeps_other(i: nat, wire: nat, other: nat, n: nat)
    requires
        wire < n,
        other < n,
        wire != other,
        i < pow2(n),
    ensures
        bit_of(flip_of(i, wire, n), other, n) == bit_of(i, other, n),
{
    lemma_flip(i, wire, n);
    let f = flip_of(i, wire, n);
    let wt = weight_of(wire, n) as int;
    let wo = weight_of(other, n) as int;
    lemma_weight(wire, n);
    lemma_weight(other, n);
    if other < wire {
        let k = (wire - other) as nat;
        vstd::arithmetic::power2::lemma_pow2_adds((n - 1 - wire) as nat, k);
        assert(wo == wt * pow2(k));
        lemma_pow2_unfold(k);
        vstd::arithmetic::power2::lemma_pow2_pos((k - 1) as nat);
        vstd::arithmetic::div_mod::lemma_div_denominator(i as int, wt, pow2(k) as int);
        vstd::arithmetic::div_mod::lemma_div_denominator(f as int, wt, pow2(k) as int);
        vstd::arithmetic::div_mod::lemma_div_denominator(
            (i as int) / wt,
            2,
            pow2((k - 1) as nat) as int,
        );
        vstd::arithmetic::div_mod::lemma_div_denominator(
            (f as int) / wt,
            2,
            pow2((k - 1) as nat) as int,
        );
        assert((i as int) / wo == (f as int) / wo);
    } else {
        let k = (other - wire) as nat;
        vstd::arithmetic::power2::lemma_pow2_adds((n - 1 - other) as nat, k);
        assert(wt == wo * pow2(k));
        lemma_pow2_unfold(k);
        let m = pow2((k - 1) as nat) as int;
        assert(wt == wo * 2 * m) by (nonlinear_arith)
            requires
                wt == wo * pow2(k),
                pow2(k) == 2 * m,
        ;
        let q = (i as int) / wo;
        let r = (i as int) % wo;
        vstd::arithmetic::div_mod::lemma_fundamental_div_mod(i as int, wo);
        if bit_of(i, wire, n) == 1 {
            assert(f as int == wo * (q - 2 * m) + r) by (nonlinear_arith)
                requires
                    f as int == i - wt,
                    i == wo * q + r,
                    wt == wo * 2 * m,
            ;
            vstd::arithmetic::div_mod::lemma_fundamental_div_mod_converse(
                f as int,
                wo,
                q - 2 * m,
                r,
            );
        } else {
            assert(f as int == wo * (q + 2 * m) + r) by (nonlinear_arith)
                requires
                    f as int == i + wt,
                    i == wo * q + r,
                    wt == wo * 2 * m,
            ;
            vstd::arithmetic::div_mod::lemma_fundamental_div_mod_converse(
                f as int,
                wo,
                q + 2 * m,
                r,
            );
        }
    }
}

/// CNOT applied twice gives every basis index back when control and target are
/// distinct wires: its permutation stays in range and is its own inverse.
pub proof fn lemma_cnot_twice(i: nat, control: nat, target: nat, n: nat)
    requires
        control < n,
        target < n,
        control != target,
        i < dim_of(n),
    ensures
        cnot_of(i, control, target, n) < dim_of(n),
        cnot_of(cnot_of(i, control, target, n), control, target, n) == i,
{
    if bit_of(i, control, n) == 1 {
        lemma_flip(i, target, n);
        lemma_flip_keeps_other(i, target, control, n);
    }
}


/// Where entry (`row`, `col`) of a Kronecker product A ⊗ B comes from, for B of
/// `rows_b` × `cols_b`: entry (i·rows_b + k, j·cols_b + l) is A(i, j)·B(k, l), and
/// the result is ((i, j), (k, l)).
pub fn kron_source(row: usize, col: usize, rows_b: usize, cols_b: usize) -> (r: (
    (usize, usize),
    (usize, usize),
))
    requires
        rows_b > 0,
        cols_b > 0,
    ensures
        (r.1).0 < rows_b,
        (r.1).1 < cols_b,
        row == (r.0).0 * rows_b + (r.1).0,
        col == (r.0).1 * cols_b + (r.1).1,
{
    proof {
        vstd::arithmetic::div_mod::lemma_fundamental_div_mod(row as int, rows_b as int);
        vstd::arithmetic::div_mod::lemma_fundamental_div_mod(col as int, cols_b as int);
        vstd::arithmetic::mul::lemma_mul_is_commutative((row / rows_b) as int, rows_b as int);
        vstd::arithmetic::mul::lemma_mul_is_commutative((col / cols_b) as int, cols_b as int);
    }
    ((row / rows_b, col / cols_b), (row % rows_b, col % cols_b))
}

} // verus!
