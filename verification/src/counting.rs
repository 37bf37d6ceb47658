use vstd::prelude::*;

verus! {

/// The number of token vectors of length `n`: `2^(32 n)`.
pub open spec fn marking_space(n: nat) -> nat
    decreases n,
{
    if n == 0 {
        1
    } else {
        0x1_0000_0000 * marking_space((n - 1) as nat)
    }
}

/// A token vector read as a number in base `2^32`, last entry lowest.
pub open spec fn marking_code(t: Seq<u32>) -> int
    decreases t.len(),
{
    if t.len() == 0 {
        0
    } else {
        marking_code(t.drop_last()) * 0x1_0000_0000 + t.last()
    }
}

proof fn lemma_marking_code_range(t: Seq<u32>)
    ensures
        0 <= marking_code(t) < marking_space(t.len()),
    decreases t.len(),
{
    if t.len() > 0 {
        lemma_marking_code_range(t.drop_last());
        let c = marking_code(t.drop_last());
        let m = marking_space(t.drop_last().len());
        let x = t.last() as int;
        assert(0 <= c * 0x1_0000_0000 + x < 0x1_0000_0000 * m) by (nonlinear_arith)
            requires
                0 <= c < m,
                0 <= x < 0x1_0000_0000,
        ;
    }
}

proof fn lemma_marking_code_injective(a: Seq<u32>, b: Seq<u32>)
    requires
        a.len() == b.len(),
        marking_code(a) == marking_code(b),
    ensures
        a == b,
    decreases a.len(),
{
    if a.len() > 0 {
        let ca = marking_code(a.drop_last());
        let cb = marking_code(b.drop_last());
        lemma_marking_code_range(a.drop_last());
        lemma_marking_code_range(b.drop_last());
        vstd::arithmetic::div_mod::lemma_fundamental_div_mod_converse(
            marking_code(a),
            0x1_0000_0000,
            ca,
            a.last() as int,
        );
        vstd::arithmetic::div_mod::lemma_fundamental_div_mod_converse(
            marking_code(b),
            0x1_0000_0000,
            cb,
            b.last() as int,
        );
        lemma_marking_code_injective(a.drop_last(), b.drop_last());
        assert(a =~= a.drop_last().push(a.last()));
        assert(b =~= b.drop_last().push(b.last()));
    }
}

/// A sequence of distinct integers in `[0, n)` has at most `n` entries.
pub proof fn lemma_distinct_in_range(s: Seq<int>, n: int)
    requires
        0 <= n,
        s.no_duplicates(),
        forall|i: int| 0 <= i < s.len() ==> 0 <= #[trigger] s[i] < n,
    ensures
        s.len() <= n,
{
    s.unique_seq_to_set();
    vstd::set_lib::lemma_int_range(0, n);
    assert(s.to_set().subset_of(vstd::set_lib::set_int_range(0, n)));
    vstd::set_lib::lemma_len_subset(s.to_set(), vstd::set_lib::set_int_range(0, n));
}

/// Distinct token vectors of length `n` are at most `2^(32 n)`.
pub proof fn lemma_distinct_markings(ms: Seq<Seq<u32>>, n: nat)
    requires
        ms.no_duplicates(),
        forall|i: int| 0 <= i < ms.len() ==> (#[trigger] ms[i]).len() == n,
    ensures
        ms.len() <= marking_space(n),
{
    let codes = ms.map_values(|t: Seq<u32>| marking_code(t));
    assert forall|i: int, j: int| 0 <= i < codes.len() && 0 <= j < codes.len() && i != j implies codes[i] != codes[j] by {
        if codes[i] == codes[j] {
            lemma_marking_code_injective(ms[i], ms[j]);
        }
    }
    assert forall|i: int| 0 <= i < codes.len() implies 0 <= #[trigger] codes[i] < marking_space(n) by {
        lemma_marking_code_range(ms[i]);
    }
    lemma_distinct_in_range(codes, marking_space(n) as int);
}

/// Distinct pairs with first entry below `m` and second below `k` are at most `m * k`.
pub proof fn lemma_distinct_pairs(ps: Seq<(usize, usize)>, m: nat, k: nat)
    requires
        ps.no_duplicates(),
        forall|i: int| 0 <= i < ps.len() ==> (#[trigger] ps[i]).0 < m && ps[i].1 < k,
    ensures
        ps.len() <= m * k,
{
    let codes = ps.map_values(|p: (usize, usize)| p.0 * (k as int) + p.1);
    assert forall|i: int, j: int| 0 <= i < codes.len() && 0 <= j < codes.len() && i != j implies codes[i] != codes[j] by {
        if codes[i] == codes[j] {
            vstd::arithmetic::div_mod::lemma_fundamental_div_mod_converse(codes[i], k as int, ps[i].0 as int, ps[i].1 as int);
            vstd::arithmetic::div_mod::lemma_fundamental_div_mod_converse(codes[j], k as int, ps[j].0 as int, ps[j].1 as int);
        }
    }
    assert forall|i: int| 0 <= i < codes.len() implies 0 <= #[trigger] codes[i] < m * k by {
        let a = ps[i].0 as int;
        let b = ps[i].1 as int;
        assert(0 <= a * (k as int) + b < (m as int) * (k as int)) by (nonlinear_arith)
            requires
                0 <= a < m,
                0 <= b < k,
        ;
    }
    lemma_distinct_in_range(codes, (m * k) as int);
}

} // verus!
