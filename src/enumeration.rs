//! The order in which the search tries wirings, and what that order
//! covers: each canonical wiring once, and nothing else.
use vstd::prelude::*;
use crate::circuit::{Gate, is_wiring};

verus! {

/// Every wiring of `total` gates that extends `prefix`, in the order the
/// search tries them: the next gate's `in1` ascending, and for each `in1`
/// its `in2` ascending up to `in1`.
pub open spec fn completions(n: nat, total: nat, prefix: Seq<Gate>) -> Seq<Seq<Gate>>
    decreases total - prefix.len(), n + prefix.len() + 1, 0nat,
{
    if prefix.len() >= total {
        seq![prefix]
    } else {
        span(n, total, prefix, n + prefix.len(), 0)
    }
}

/// The completions of `prefix` whose next gate comes before `(a, b)`:
/// `in1 < a`, or `in1 == a` and `in2 < b`.
pub open spec fn span(n: nat, total: nat, prefix: Seq<Gate>, a: nat, b: nat) -> Seq<Seq<Gate>>
    decreases total - prefix.len(), a, b,
{
    if prefix.len() >= total {
        Seq::empty()
    } else if b == 0 {
        if a == 0 {
            Seq::empty()
        } else {
            span(n, total, prefix, (a - 1) as nat, a)
        }
    } else {
        span(n, total, prefix, a, (b - 1) as nat) + completions(
            n,
            total,
            prefix.push(Gate { in1: a as usize, in2: (b - 1) as usize }),
        )
    }
}

/// Every circuit of `cs` has `total` gates, is a wiring, and begins with
/// `prefix`.
pub open spec fn all_extend(n: nat, total: nat, prefix: Seq<Gate>, cs: Seq<Seq<Gate>>) -> bool {
    forall|i: int|
        0 <= i < cs.len() ==> #[trigger] cs[i].len() == total && is_wiring(n, cs[i]) && cs[i].subrange(
            0,
            prefix.len() as int,
        ) == prefix
}

/// Number of canonical operand pairs among `m` signals.
pub open spec fn tri(m: nat) -> nat
    decreases m,
{
    if m == 0 {
        0
    } else {
        tri((m - 1) as nat) + m
    }
}

/// Number of wirings of gates `from..total` over `n` inputs: the product of
/// the pair counts of each gate position.
pub open spec fn wiring_count(n: nat, from: nat, total: nat) -> nat
    decreases total - from,
{
    if from >= total {
        1
    } else {
        tri(n + from) * wiring_count(n, from + 1, total)
    }
}

/// Among `m` signals there are `m(m+1)/2` pairs with `in2 <= in1`.
pub proof fn lemma_tri_closed_form(m: nat)
    ensures
        2 * tri(m) == m * (m + 1),
    decreases m,
{
    if m > 0 {
        lemma_tri_closed_form((m - 1) as nat);
        let k = (m - 1) as nat;
        let t = tri(k);
        assert(tri(m) == t + m);
        assert(2 * (t + m) == m * (m + 1)) by (nonlinear_arith)
            requires
                2 * t == k * (k + 1),
                m == k + 1,
        ;
    } else {
        assert(m * (m + 1) == 0) by (nonlinear_arith)
            requires
                m == 0,
        ;
    }
}

pub proof fn lemma_completions_sound(n: nat, total: nat, prefix: Seq<Gate>)
    requires
        is_wiring(n, prefix),
        prefix.len() <= total,
        n + total <= usize::MAX,
    ensures
        all_extend(n, total, prefix, completions(n, total, prefix)),
    decreases total - prefix.len(), n + prefix.len() + 1, 0nat,
{
    if prefix.len() >= total {
        assert(prefix.subrange(0, prefix.len() as int) =~= prefix);
    } else {
        lemma_span_sound(n, total, prefix, n + prefix.len(), 0);
    }
}

pub proof fn lemma_span_sound(n: nat, total: nat, prefix: Seq<Gate>, a: nat, b: nat)
    requires
        is_wiring(n, prefix),
        prefix.len() < total,
        a <= n + prefix.len(),
        b <= a + 1,
        b > 0 ==> a < n + prefix.len(),
        n + total <= usize::MAX,
    ensures
        all_extend(n, total, prefix, span(n, total, prefix, a, b)),
    decreases total - prefix.len(), a, b,
{
    if b == 0 {
        if a > 0 {
            lemma_span_sound(n, total, prefix, (a - 1) as nat, a);
            assert(span(n, total, prefix, a, b) == span(n, total, prefix, (a - 1) as nat, a));
        } else {
            assert(span(n, total, prefix, a, b).len() == 0);
        }
    } else {
        let len = prefix.len();
        let g = Gate { in1: a as usize, in2: (b - 1) as usize };
        let ext = prefix.push(g);
        lemma_span_sound(n, total, prefix, a, (b - 1) as nat);
        assert(is_wiring(n, ext)) by {
            assert forall|j: int| 0 <= j < ext.len() implies #[trigger] ext[j].in2 <= ext[j].in1
                && ext[j].in1 < n + j by {
                if j < len {
                    assert(ext[j] == prefix[j]);
                }
            }
        }
        lemma_completions_sound(n, total, ext);
        let first = span(n, total, prefix, a, (b - 1) as nat);
        let second = completions(n, total, ext);
        assert(span(n, total, prefix, a, b) == first + second);
        assert forall|i: int| 0 <= i < (first + second).len() implies #[trigger] (first
            + second)[i].len() == total && is_wiring(n, (first + second)[i]) && (first
            + second)[i].subrange(0, len as int) == prefix by {
            if i >= first.len() {
                let c = second[i - first.len()];
                assert(c.subrange(0, (len + 1) as int) == ext);
                assert(c.subrange(0, len as int) =~= c.subrange(0, (len + 1) as int).subrange(0, len as int));
                assert(ext.subrange(0, len as int) =~= prefix);
            }
        }
    }
}

pub proof fn lemma_completions_complete(n: nat, total: nat, prefix: Seq<Gate>, c: Seq<Gate>)
    requires
        is_wiring(n, c),
        c.len() == total,
        prefix.len() <= total,
        c.subrange(0, prefix.len() as int) == prefix,
        n + total <= usize::MAX,
    ensures
        completions(n, total, prefix).contains(c),
    decreases total - prefix.len(), n + prefix.len() + 1, 0nat,
{
    if prefix.len() >= total {
        assert(c =~= c.subrange(0, prefix.len() as int));
        assert(completions(n, total, prefix)[0] == c);
    } else {
        let len = prefix.len();
        assert(c[len as int].in1 < n + len);
        lemma_span_complete(n, total, prefix, n + len, 0, c);
    }
}

pub proof fn lemma_span_complete(
    n: nat,
    total: nat,
    prefix: Seq<Gate>,
    a: nat,
    b: nat,
    c: Seq<Gate>,
)
    requires
        is_wiring(n, c),
        c.len() == total,
        prefix.len() < total,
        c.subrange(0, prefix.len() as int) == prefix,
        c[prefix.len() as int].in1 < a || (c[prefix.len() as int].in1 == a && c[prefix.len() as int].in2 < b),
        n + total <= usize::MAX,
    ensures
        span(n, total, prefix, a, b).contains(c),
    decreases total - prefix.len(), a, b,
{
    let len = prefix.len();
    let x = c[len as int].in1;
    let y = c[len as int].in2;
    assert(y <= x);
    if b == 0 {
        lemma_span_complete(n, total, prefix, (a - 1) as nat, a, c);
    } else {
        let g = Gate { in1: a as usize, in2: (b - 1) as usize };
        let ext = prefix.push(g);
        let first = span(n, total, prefix, a, (b - 1) as nat);
        let second = completions(n, total, ext);
        assert(span(n, total, prefix, a, b) == first + second);
        if x == a && y == b - 1 {
            assert(c.subrange(0, (len + 1) as int) =~= ext) by {
                assert(c[len as int] == g);
            }
            lemma_completions_complete(n, total, ext, c);
            let j = choose|j: int| 0 <= j < second.len() && second[j] == c;
            assert((first + second)[first.len() + j] == c);
        } else {
            lemma_span_complete(n, total, prefix, a, (b - 1) as nat, c);
            let j = choose|j: int| 0 <= j < first.len() && first[j] == c;
            assert((first + second)[j] == c);
        }
    }
}

pub proof fn lemma_completions_len(n: nat, total: nat, prefix: Seq<Gate>)
    requires
        prefix.len() <= total,
    ensures
        completions(n, total, prefix).len() == wiring_count(n, prefix.len(), total),
    decreases total - prefix.len(), n + prefix.len() + 1, 0nat,
{
    if prefix.len() < total {
        lemma_span_len(n, total, prefix, n + prefix.len(), 0);
    }
}

pub proof fn lemma_span_len(n: nat, total: nat, prefix: Seq<Gate>, a: nat, b: nat)
    requires
        prefix.len() < total,
    ensures
        span(n, total, prefix, a, b).len() == (tri(a) + b) * wiring_count(n, prefix.len() + 1, total),
    decreases total - prefix.len(), a, b,
{
    let w = wiring_count(n, prefix.len() + 1, total);
    if b == 0 {
        if a > 0 {
            lemma_span_len(n, total, prefix, (a - 1) as nat, a);
            assert(span(n, total, prefix, a, b) == span(n, total, prefix, (a - 1) as nat, a));
            assert(tri(a) == tri((a - 1) as nat) + a);
        } else {
            assert(span(n, total, prefix, a, b).len() == 0);
            assert(tri(a) == 0);
            assert((0 + 0) * w == 0) by (nonlinear_arith);
        }
    } else {
        let g = Gate { in1: a as usize, in2: (b - 1) as usize };
        lemma_span_len(n, total, prefix, a, (b - 1) as nat);
        lemma_completions_len(n, total, prefix.push(g));
        let t = tri(a);
        let first = span(n, total, prefix, a, (b - 1) as nat);
        let second = completions(n, total, prefix.push(g));
        assert(span(n, total, prefix, a, b) == first + second);
        assert(second.len() == w);
        assert((t + (b - 1)) * w + w == (t + b) * w) by (nonlinear_arith);
    }
}

/// No circuit occurs twice in `cs`.
pub open spec fn distinct(cs: Seq<Seq<Gate>>) -> bool {
    forall|i: int, j: int|
        0 <= i < cs.len() && 0 <= j < cs.len() && i != j ==> #[trigger] cs[i] != #[trigger] cs[j]
}

/// Gate `len` of `c` comes before `(a, b)` in search order.
pub open spec fn next_gate_before(c: Seq<Gate>, len: nat, a: nat, b: nat) -> bool {
    c[len as int].in1 < a || (c[len as int].in1 == a && c[len as int].in2 < b)
}

pub proof fn lemma_completions_distinct(n: nat, total: nat, prefix: Seq<Gate>)
    requires
        is_wiring(n, prefix),
        prefix.len() <= total,
        n + total <= usize::MAX,
    ensures
        distinct(completions(n, total, prefix)),
    decreases total - prefix.len(), n + prefix.len() + 1, 0nat,
{
    if prefix.len() < total {
        lemma_span_distinct(n, total, prefix, n + prefix.len(), 0);
    }
}

pub proof fn lemma_span_distinct(n: nat, total: nat, prefix: Seq<Gate>, a: nat, b: nat)
    requires
        is_wiring(n, prefix),
        prefix.len() < total,
        a <= n + prefix.len(),
        b <= a + 1,
        b > 0 ==> a < n + prefix.len(),
        n + total <= usize::MAX,
    ensures
        distinct(span(n, total, prefix, a, b)),
        forall|i: int|
            0 <= i < span(n, total, prefix, a, b).len() ==> next_gate_before(
                #[trigger] span(n, total, prefix, a, b)[i],
                prefix.len(),
                a,
                b,
            ),
    decreases total - prefix.len(), a, b,
{
    let len = prefix.len();
    lemma_span_sound(n, total, prefix, a, b);
    if b == 0 {
        if a > 0 {
            lemma_span_distinct(n, total, prefix, (a - 1) as nat, a);
            assert(span(n, total, prefix, a, b) == span(n, total, prefix, (a - 1) as nat, a));
        } else {
            assert(span(n, total, prefix, a, b).len() == 0);
        }
    } else {
        let g = Gate { in1: a as usize, in2: (b - 1) as usize };
        let ext = prefix.push(g);
        lemma_span_distinct(n, total, prefix, a, (b - 1) as nat);
        lemma_span_sound(n, total, prefix, a, (b - 1) as nat);
        assert(is_wiring(n, ext)) by {
            assert forall|j: int| 0 <= j < ext.len() implies #[trigger] ext[j].in2 <= ext[j].in1
                && ext[j].in1 < n + j by {
                if j < len {
                    assert(ext[j] == prefix[j]);
                }
            }
        }
        lemma_completions_distinct(n, total, ext);
        lemma_completions_sound(n, total, ext);
        let first = span(n, total, prefix, a, (b - 1) as nat);
        let second = completions(n, total, ext);
        let all = first + second;
        assert(span(n, total, prefix, a, b) == all);
        assert forall|i: int| 0 <= i < second.len() implies #[trigger] second[i][len as int] == g by {
            assert(second[i].subrange(0, (len + 1) as int) == ext);
            assert(second[i].subrange(0, (len + 1) as int)[len as int] == second[i][len as int]);
        }
        assert forall|i: int| 0 <= i < all.len() implies next_gate_before(
            #[trigger] all[i],
            len,
            a,
            b,
        ) by {
            if i >= first.len() {
                assert(all[i] == second[i - first.len()]);
            } else {
                assert(all[i] == first[i]);
            }
        }
        assert forall|i: int, j: int|
            0 <= i < all.len() && 0 <= j < all.len() && i != j implies #[trigger] all[i]
            != #[trigger] all[j] by {
            if i < first.len() && j < first.len() {
                assert(all[i] == first[i] && all[j] == first[j]);
            } else if i >= first.len() && j >= first.len() {
                assert(all[i] == second[i - first.len()] && all[j] == second[j - first.len()]);
            } else if i < first.len() {
                assert(all[i] == first[i]);
                assert(next_gate_before(first[i], len, a, (b - 1) as nat));
                assert(all[j][len as int] == g);
            } else {
                assert(all[j] == first[j]);
                assert(next_gate_before(first[j], len, a, (b - 1) as nat));
                assert(all[i][len as int] == g);
            }
        }
    }
}

/// The search tries each unordered pair of operands once per gate: the
/// candidates of `total` gates are pairwise distinct, each has `in2 <= in1`
/// at every gate and reads only earlier signals, and their number is `wiring_count(n, 0, total)`, which
/// multiplies `tri(n + g)` over every gate index below `total`.
pub proof fn lemma_candidates_canonical_and_counted(n: nat, total: nat)
    requires
        n + total <= usize::MAX,
    ensures
        completions(n, total, Seq::empty()).len() == wiring_count(n, 0, total),
        distinct(completions(n, total, Seq::empty())),
        forall|i: int|
            0 <= i < completions(n, total, Seq::empty()).len() ==> is_wiring(
                n,
                #[trigger] completions(n, total, Seq::empty())[i],
            ) && completions(n, total, Seq::empty())[i].len() == total,
{
    lemma_completions_len(n, total, Seq::empty());
    lemma_completions_sound(n, total, Seq::empty());
    lemma_completions_distinct(n, total, Seq::empty());
}

} // verus!
