//! Properties of the decoder that span several calls.
use vstd::prelude::*;
use vstd::arithmetic::power2::{pow2, lemma_pow2_unfold, lemma_pow2_adds, lemma_pow2_pos, lemma2_to64};
use crate::bits::{bit_value, bits_value, lemma_bits_value_bound};
use crate::model::{
    BoolModel, draws_within_budget, init_model, read_bool_model, lemma_read_bool_model,
    lemma_draws_within_budget_trans, renormalize, literal_model, term_subexp_model,
    diff_update_model, split, is_normalized, lemma_split_bounds,
};
use crate::remap::{INV_MAP_TABLE, inv_recenter, inv_remap};

verus! {

/// Every decoder call from a state `trace[i]` to `trace[i + 1]` stayed within its budget.
pub open spec fn budgeted_trace(trace: Seq<BoolModel>) -> bool {
    forall|i: int| 0 <= i < trace.len() - 1 ==> draws_within_budget(#[trigger] trace[i], trace[i + 1])
}

/// Budgets compose along a trace: its last state drew within budget from its first.
pub proof fn lemma_budgeted_trace(trace: Seq<BoolModel>, k: int)
    requires
        budgeted_trace(trace),
        trace[0].max_bits >= 0,
        0 <= k < trace.len(),
    ensures
        draws_within_budget(trace[0], trace[k]),
    decreases k,
{
    if k == 0 {
        assert(trace[0].unread.skip(0) =~= trace[0].unread);
    } else {
        lemma_budgeted_trace(trace, k - 1);
        lemma_draws_within_budget_trans(trace[0], trace[k - 1], trace[k]);
    }
}

/// A partition of `sz` bytes is read exactly: when the reader holding `bits` is opened
/// on it (the state `init` returns is `trace[0]`), any decoder calls follow (each
/// within budget, as every call of `BoolReader` is), and `exit` then succeeds, the
/// reader is left exactly `8 * sz` bits further on, whatever was decoded in between.
#[verifier::spinoff_prover]
pub proof fn law_partition_read_exactly(bits: Seq<bool>, sz: int, trace: Seq<BoolModel>)
    requires
        sz >= 1,
        bits.len() >= 8,
        trace.len() >= 1,
        trace[0] == read_bool_model(init_model(bits, sz), 128).1,
        budgeted_trace(trace),
        trace.last().max_bits <= trace.last().unread.len(),
    ensures
        bits.len() >= 8 * sz,
        trace.last().unread.skip(trace.last().max_bits) == bits.skip(8 * sz),
{
    let start = init_model(bits, sz);
    lemma_bits_value_bound(bits.take(8));
    vstd::arithmetic::power2::lemma2_to64();
    lemma_read_bool_model(start, 128);
    lemma_budgeted_trace(trace, trace.len() - 1);
    lemma_draws_within_budget_trans(start, trace[0], trace.last());
    assert(trace.last().unread.skip(trace.last().max_bits) =~= bits.skip(8 * sz));
}

/// Once the budget is spent the decoder no longer touches its reader: whatever is
/// decoded after that, the reader keeps every bit it held.
pub proof fn law_spent_budget_leaves_reader_alone(before: BoolModel, after: BoolModel)
    requires
        before.max_bits == 0,
        draws_within_budget(before, after),
    ensures
        after.unread == before.unread,
        after.max_bits == 0,
{
    assert(before.unread.skip(0) =~= before.unread);
}

/// A bit put in front of `x` counts `2^len(x)`.
pub proof fn lemma_bits_value_push_front(b: bool, x: Seq<bool>)
    ensures
        bits_value(seq![b] + x) == bit_value(b) * pow2(x.len()) + bits_value(x),
    decreases x.len(),
{
    let y = seq![b] + x;
    if x.len() == 0 {
        lemma2_to64();
        assert(y.drop_last() =~= Seq::<bool>::empty());
        assert(bits_value(Seq::<bool>::empty()) == 0);
        assert(y.last() == b);
        assert(bits_value(y) == 2 * bits_value(y.drop_last()) + bit_value(y.last()));
    } else {
        lemma_bits_value_push_front(b, x.drop_last());
        assert(y.drop_last() =~= seq![b] + x.drop_last());
        assert(y.last() == x.last());
        assert(bits_value(y) == 2 * bits_value(y.drop_last()) + bit_value(y.last()));
        assert(bits_value(x) == 2 * bits_value(x.drop_last()) + bit_value(x.last()));
        lemma_pow2_unfold(x.len());
        assert(bit_value(b) * pow2(x.len()) == 2 * (bit_value(b) * pow2((x.len() - 1) as nat))) by (nonlinear_arith)
            requires
                pow2(x.len()) == 2 * pow2((x.len() - 1) as nat),
        ;
    }
}

/// Renormalization doubles the interval the least number of times `k` that makes it
/// at least 128 wide, and shifts into the value the next `min(k, max_bits)` bits of the
/// reader, most significant first, followed by zeros: while budget is left every
/// shifted-in bit comes from the reader, and zeros come in only once the budget is
/// spent. It runs dry exactly when the reader holds fewer bits than it has to take.
pub proof fn law_renormalize_takes_budgeted_bits(s: BoolModel) -> (k: nat)
    requires
        1 <= s.range <= 255,
        s.max_bits >= 0,
    ensures
        s.range * pow2(k) >= 128,
        k == 0 || s.range * pow2((k - 1) as nat) < 128,
        ({
            let (ok, t) = renormalize(s);
            let j: int = if k <= s.max_bits { k as int } else { s.max_bits };
            &&& ok <==> j <= s.unread.len()
            &&& ok ==> {
                &&& t.range == s.range * pow2(k)
                &&& t.value == s.value * pow2(k) + bits_value(s.unread.take(j)) * pow2((k - j) as nat)
                &&& t.max_bits == s.max_bits - j
                &&& t.unread == s.unread.skip(j)
            }
        }),
    decreases 256 - s.range,
{
    lemma2_to64();
    if s.range >= 128 {
        assert(s.unread.take(0) =~= Seq::<bool>::empty());
        assert(s.unread.skip(0) =~= s.unread);
        0
    } else if s.max_bits > 0 && s.unread.len() > 0 {
        let n = BoolModel {
            range: 2 * s.range,
            value: 2 * s.value + bit_value(s.unread[0]),
            max_bits: s.max_bits - 1,
            unread: s.unread.drop_first(),
        };
        let k1 = law_renormalize_takes_budgeted_bits(n);
        let k = k1 + 1;
        lemma_pow2_unfold(k);
        assert(s.range * pow2(k) == n.range * pow2(k1)) by (nonlinear_arith)
            requires
                pow2(k) == 2 * pow2(k1),
                n.range == 2 * s.range,
        ;
        if k1 > 0 {
            lemma_pow2_unfold(k1);
            assert(s.range * pow2(k1) == n.range * pow2((k1 - 1) as nat)) by (nonlinear_arith)
                requires
                    pow2(k1) == 2 * pow2((k1 - 1) as nat),
                    n.range == 2 * s.range,
            ;
        } else {
            assert(s.range * pow2(0) == s.range);
        }
        let j1: int = if k1 <= n.max_bits { k1 as int } else { n.max_bits };
        let j: int = if k <= s.max_bits { k as int } else { s.max_bits };
        assert(j == j1 + 1);
        let (ok, t) = renormalize(s);
        assert(renormalize(s) == renormalize(n));
        if ok {
            let x = n.unread.take(j1);
            assert(s.unread.take(j) =~= seq![s.unread[0]] + x);
            lemma_bits_value_push_front(s.unread[0], x);
            lemma_pow2_adds(j1 as nat, (k1 - j1) as nat);
            assert((j1 as nat + (k1 - j1) as nat) as nat == k1);
            assert(t.value == s.value * pow2(k) + bits_value(s.unread.take(j)) * pow2((k - j) as nat)) by (nonlinear_arith)
                requires
                    t.value == n.value * pow2(k1) + bits_value(x) * pow2((k1 - j1) as nat),
                    n.value == 2 * s.value + bit_value(s.unread[0]),
                    pow2(k) == 2 * pow2(k1),
                    bits_value(s.unread.take(j)) == bit_value(s.unread[0]) * pow2(j1 as nat) + bits_value(x),
                    pow2(k1) == pow2(j1 as nat) * pow2((k1 - j1) as nat),
                    (k - j) == (k1 - j1),
            ;
            assert(t.unread =~= s.unread.skip(j));
        }
        k
    } else {
        let n = BoolModel { range: 2 * s.range, value: 2 * s.value, max_bits: 0, unread: s.unread };
        let k1 = law_renormalize_takes_budgeted_bits(n);
        let k = k1 + 1;
        lemma_pow2_unfold(k);
        assert(s.range * pow2(k) == n.range * pow2(k1)) by (nonlinear_arith)
            requires
                pow2(k) == 2 * pow2(k1),
                n.range == 2 * s.range,
        ;
        if k1 > 0 {
            lemma_pow2_unfold(k1);
            assert(s.range * pow2(k1) == n.range * pow2((k1 - 1) as nat)) by (nonlinear_arith)
                requires
                    pow2(k1) == 2 * pow2((k1 - 1) as nat),
                    n.range == 2 * s.range,
            ;
        } else {
            assert(s.range * pow2(0) == s.range);
        }
        if s.max_bits == 0 {
            let m = BoolModel { range: 2 * s.range, value: 2 * s.value, max_bits: s.max_bits, unread: s.unread };
            assert(m == n);
            let (ok, t) = renormalize(s);
            assert(renormalize(s) == renormalize(n));
            assert(s.unread.take(0) =~= Seq::<bool>::empty());
            assert(n.unread.take(0) =~= Seq::<bool>::empty());
            assert(bits_value(Seq::<bool>::empty()) == 0);
            let j1: int = if k1 <= n.max_bits { k1 as int } else { n.max_bits };
            assert(j1 == 0);
            assert(bits_value(n.unread.take(j1)) == 0);
            if ok {
                assert(renormalize(n).0);
                assert(renormalize(n).1.value == n.value * pow2(k1) + bits_value(n.unread.take(j1)) * pow2((k1 - j1) as nat));
                assert(0 * pow2((k1 - j1) as nat) == 0) by (nonlinear_arith);
                assert(t == renormalize(n).1);
                assert(t.value == n.value * pow2(k1));
                assert(t.value == s.value * pow2(k)) by (nonlinear_arith)
                    requires
                        t.value == n.value * pow2(k1),
                        n.value == 2 * s.value,
                        pow2(k) == 2 * pow2(k1),
                ;
            }
        }
        k
    }
}

/// Decoding one boolean at odds `p / 256` cuts the interval at `c`, the whole part of
/// `1 + (range - 1) * p / 256` (so `c - 1` is the largest number with
/// `256 * (c - 1) <= (range - 1) * p`): the boolean is false exactly when the value lies
/// below `c`, the kept part is `[0, c)` or `[c, range)`, and it is then doubled the least
/// number of times `k` that makes it at least 128 wide, shifting in the reader's next
/// `min(k, max_bits)` bits and then zeros.
pub proof fn law_read_bool_cuts_interval(s: BoolModel, p: int) -> (k: nat)
    requires
        is_normalized(s),
        0 <= p <= 255,
    ensures
        ({
            let c = split(s.range, p);
            let (b, t) = read_bool_model(s, p);
            let bit = s.value >= c;
            let lo: int = if bit { c } else { 0 };
            let width: int = if bit { s.range - c } else { c };
            let j: int = if k <= s.max_bits { k as int } else { s.max_bits };
            &&& 1 <= c < s.range
            &&& 256 * (c - 1) <= (s.range - 1) * p < 256 * c
            &&& width * pow2(k) >= 128
            &&& k == 0 || width * pow2((k - 1) as nat) < 128
            &&& b is Some <==> j <= s.unread.len()
            &&& b is Some ==> {
                &&& b == Some(bit)
                &&& t.range == width * pow2(k)
                &&& t.value == (s.value - lo) * pow2(k) + bits_value(s.unread.take(j)) * pow2((k - j) as nat)
                &&& t.max_bits == s.max_bits - j
                &&& t.unread == s.unread.skip(j)
            }
        }),
{
    lemma_split_bounds(s.range, p);
    let c = split(s.range, p);
    let bit = s.value >= c;
    let narrowed = if bit {
        BoolModel { range: s.range - c, value: s.value - c, max_bits: s.max_bits, unread: s.unread }
    } else {
        BoolModel { range: c, value: s.value, max_bits: s.max_bits, unread: s.unread }
    };
    law_renormalize_takes_budgeted_bits(narrowed)
}

/// The `n` booleans that `n` successive decodings at even odds give, in order, and the
/// state after them; `None` when one of them ran dry.
pub open spec fn even_odds_booleans(s: BoolModel, n: nat) -> (Option<Seq<bool>>, BoolModel)
    decreases n,
{
    if n == 0 {
        (Some(Seq::<bool>::empty()), s)
    } else {
        let (prev, s1) = even_odds_booleans(s, (n - 1) as nat);
        match prev {
            None => (None, s1),
            Some(bs) => {
                let (b, s2) = read_bool_model(s1, 128);
                match b {
                    None => (None, s2),
                    Some(b) => (Some(bs.push(b)), s2),
                }
            },
        }
    }
}

/// An `n`-bit literal is the number that the next `n` booleans decoded at even odds
/// spell, the first of them most significant; it fails exactly when one of them does,
/// and leaves the same state.
pub proof fn law_literal_is_booleans_msb_first(s: BoolModel, n: nat)
    ensures
        literal_model(s, n).1 == even_odds_booleans(s, n).1,
        literal_model(s, n).0 is None <==> even_odds_booleans(s, n).0 is None,
        even_odds_booleans(s, n).0 matches Some(bs) ==> bs.len() == n && literal_model(s, n).0 == Some(
            bits_value(bs),
        ),
    decreases n,
{
    if n == 0 {
        assert(bits_value(Seq::<bool>::empty()) == 0);
    } else {
        law_literal_is_booleans_msb_first(s, (n - 1) as nat);
        let (prev, s1) = even_odds_booleans(s, (n - 1) as nat);
        if let Some(bs) = prev {
            let (b, s2) = read_bool_model(s1, 128);
            if let Some(b) = b {
                assert(bs.push(b).drop_last() =~= bs);
                assert(bits_value(bs.push(b)) == 2 * bits_value(bs) + bit_value(b));
            }
        }
    }
}

/// A probability update decodes its flag at 252/256 odds; a clear flag keeps `prob`,
/// and a set flag is followed by a delta `d` decoded from the state the flag left,
/// the new probability being the inverse remapping of `d` around `prob`, for every
/// `d`, `0` included.
pub proof fn law_diff_update_is_flag_then_remapped_delta(s: BoolModel, prob: int)
    ensures
        ({
            let (flag, s1) = read_bool_model(s, 252);
            let (q, t) = diff_update_model(s, prob);
            &&& flag is None ==> q is None && t == s1
            &&& flag == Some(false) ==> q == Some(prob) && t == s1
            &&& flag == Some(true) ==> {
                let (d, s2) = term_subexp_model(s1);
                &&& t == s2
                &&& d is None ==> q is None
                &&& d matches Some(dv) ==> q == Some(inv_remap(dv as int, prob))
            }
        }),
{
}

/// Decoding `a + b` booleans is decoding `a`, then `b` more from where those left off.
pub proof fn lemma_even_odds_booleans_split(s: BoolModel, a: nat, b: nat, bools: Seq<bool>)
    requires
        even_odds_booleans(s, a + b).0 == Some(bools),
    ensures
        even_odds_booleans(s, a).0 == Some(bools.take(a as int)),
        even_odds_booleans(even_odds_booleans(s, a).1, b).0 == Some(bools.skip(a as int)),
        even_odds_booleans(even_odds_booleans(s, a).1, b).1 == even_odds_booleans(s, a + b).1,
    decreases b,
{
    law_literal_is_booleans_msb_first(s, a + b);
    if b == 0 {
        assert(bools.take(a as int) =~= bools);
        assert(bools.skip(a as int) =~= Seq::<bool>::empty());
    } else {
        let (prev, s1) = even_odds_booleans(s, (a + b - 1) as nat);
        assert(prev is Some);
        let pb = prev.unwrap();
        let (bit, s2) = read_bool_model(s1, 128);
        assert(bools == pb.push(bit.unwrap()));
        lemma_even_odds_booleans_split(s, a, (b - 1) as nat, pb);
        law_literal_is_booleans_msb_first(s, (a + b - 1) as nat);
        assert(pb.take(a as int) =~= bools.take(a as int));
        assert(pb.skip(a as int).push(bit.unwrap()) =~= bools.skip(a as int));
    }
}

/// The `n` bits of `v`, most significant first.
pub open spec fn bits_of(v: nat, n: nat) -> Seq<bool>
    decreases n,
{
    if n == 0 {
        Seq::<bool>::empty()
    } else {
        bits_of(v / 2, (n - 1) as nat).push(v % 2 == 1)
    }
}

/// `n` bits spell back any value below `2^n`.
pub proof fn lemma_bits_of_value(v: nat, n: nat)
    requires
        v < pow2(n),
    ensures
        bits_value(bits_of(v, n)) == v,
        bits_of(v, n).len() == n,
    decreases n,
{
    if n == 0 {
        lemma2_to64();
        assert(bits_value(Seq::<bool>::empty()) == 0);
    } else {
        lemma_pow2_unfold(n);
        lemma_bits_of_value(v / 2, (n - 1) as nat);
        let x = bits_of(v / 2, (n - 1) as nat);
        assert(x.push(v % 2 == 1).drop_last() =~= x);
    }
}

/// The booleans an encoder writes for the probability delta `d < 255`: a unary prefix
/// choosing `0..16`, `16..32`, `32..64` or `64..255`, then the offset in 4, 4, 5 or 7
/// bits; above 128 the 7 bits hold `(d + 1) / 2` and one more bit the parity of `d + 1`.
pub open spec fn subexp_code(d: nat) -> Seq<bool> {
    if d < 16 {
        seq![false] + bits_of(d, 4)
    } else if d < 32 {
        seq![true, false] + bits_of((d - 16) as nat, 4)
    } else if d < 64 {
        seq![true, true, false] + bits_of((d - 32) as nat, 5)
    } else if d < 129 {
        seq![true, true, true] + bits_of((d - 64) as nat, 7)
    } else {
        seq![true, true, true] + bits_of(((d + 1) / 2) as nat, 7) + seq![(d + 1) % 2 == 1]
    }
}

/// Reading a literal of `n` bits where the next `n` booleans are `bools`.
proof fn lemma_literal_from_booleans(s: BoolModel, n: nat, bools: Seq<bool>)
    requires
        even_odds_booleans(s, n).0 == Some(bools),
    ensures
        literal_model(s, n) == (Some(bits_value(bools)), even_odds_booleans(s, n).1),
{
    law_literal_is_booleans_msb_first(s, n);
}

/// Takes the next `a` booleans of a run of `a + b` known ones: returns the state after
/// them, from which the remaining `b` follow.
proof fn lemma_take_booleans(s: BoolModel, a: nat, b: nat, bools: Seq<bool>) -> (sa: BoolModel)
    requires
        even_odds_booleans(s, a + b).0 == Some(bools),
    ensures
        literal_model(s, a) == (Some(bits_value(bools.take(a as int))), sa),
        even_odds_booleans(sa, b).0 == Some(bools.skip(a as int)),
        even_odds_booleans(sa, b).1 == even_odds_booleans(s, a + b).1,
{
    lemma_even_odds_booleans_split(s, a, b, bools);
    lemma_literal_from_booleans(s, a, bools.take(a as int));
    even_odds_booleans(s, a).1
}

proof fn lemma_bits_value_single(b: bool)
    ensures
        bits_value(seq![b]) == bit_value(b),
{
    assert(seq![b].drop_last() =~= Seq::<bool>::empty());
    assert(bits_value(Seq::<bool>::empty()) == 0);
    assert(seq![b].last() == b);
}

#[verifier::spinoff_prover]
proof fn lemma_subexp_short(s: BoolModel, d: nat)
    requires
        d < 16,
        even_odds_booleans(s, 5).0 == Some(subexp_code(d)),
    ensures
        term_subexp_model(s) == (Some(d), even_odds_booleans(s, 5).1),
{
    let code = subexp_code(d);
    lemma2_to64();
    lemma_bits_value_single(false);
    lemma_bits_of_value(d, 4);
    let s1 = lemma_take_booleans(s, 1, 4, code);
    assert(code.take(1) =~= seq![false]);
    assert(code.skip(1) =~= bits_of(d, 4));
    lemma_literal_from_booleans(s1, 4, code.skip(1));
}

#[verifier::spinoff_prover]
proof fn lemma_subexp_second(s: BoolModel, d: nat)
    requires
        16 <= d < 32,
        even_odds_booleans(s, 6).0 == Some(subexp_code(d)),
    ensures
        term_subexp_model(s) == (Some(d), even_odds_booleans(s, 6).1),
{
    let code = subexp_code(d);
    lemma2_to64();
    lemma_bits_value_single(false);
    lemma_bits_value_single(true);
    lemma_bits_of_value((d - 16) as nat, 4);
    let s1 = lemma_take_booleans(s, 1, 5, code);
    let r1 = code.skip(1);
    assert(code.take(1) =~= seq![true]);
    let s2 = lemma_take_booleans(s1, 1, 4, r1);
    assert(r1.take(1) =~= seq![false]);
    assert(r1.skip(1) =~= bits_of((d - 16) as nat, 4));
    lemma_literal_from_booleans(s2, 4, r1.skip(1));
}

#[verifier::spinoff_prover]
proof fn lemma_subexp_third(s: BoolModel, d: nat)
    requires
        32 <= d < 64,
        even_odds_booleans(s, 8).0 == Some(subexp_code(d)),
    ensures
        term_subexp_model(s) == (Some(d), even_odds_booleans(s, 8).1),
{
    let code = subexp_code(d);
    lemma2_to64();
    lemma_bits_value_single(false);
    lemma_bits_value_single(true);
    lemma_bits_of_value((d - 32) as nat, 5);
    let s1 = lemma_take_booleans(s, 1, 7, code);
    let r1 = code.skip(1);
    assert(code.take(1) =~= seq![true]);
    let s2 = lemma_take_booleans(s1, 1, 6, r1);
    let r2 = r1.skip(1);
    assert(r1.take(1) =~= seq![true]);
    let s3 = lemma_take_booleans(s2, 1, 5, r2);
    assert(r2.take(1) =~= seq![false]);
    assert(r2.skip(1) =~= bits_of((d - 32) as nat, 5));
    lemma_literal_from_booleans(s3, 5, r2.skip(1));
}

/// Takes the three set prefix flags of a long code; returns the state after them.
proof fn lemma_subexp_prefix(s: BoolModel, rest: nat, code: Seq<bool>) -> (s3: BoolModel)
    requires
        even_odds_booleans(s, 3 + rest).0 == Some(code),
        code.len() >= 3,
        code[0] && code[1] && code[2],
    ensures
        literal_model(s, 1).0 == Some(1nat),
        literal_model(literal_model(s, 1).1, 1).0 == Some(1nat),
        literal_model(literal_model(literal_model(s, 1).1, 1).1, 1) == (Some(1nat), s3),
        even_odds_booleans(s3, rest).0 == Some(code.skip(3)),
        even_odds_booleans(s3, rest).1 == even_odds_booleans(s, 3 + rest).1,
{
    lemma_bits_value_single(true);
    let s1 = lemma_take_booleans(s, 1, (2 + rest) as nat, code);
    let r1 = code.skip(1);
    assert(code.take(1) =~= seq![true]);
    let s2 = lemma_take_booleans(s1, 1, (1 + rest) as nat, r1);
    let r2 = r1.skip(1);
    assert(r1.take(1) =~= seq![true]);
    let s3 = lemma_take_booleans(s2, 1, rest, r2);
    assert(r2.take(1) =~= seq![true]);
    assert(r2.skip(1) =~= code.skip(3));
    s3
}

#[verifier::spinoff_prover]
proof fn lemma_subexp_fourth(s: BoolModel, d: nat)
    requires
        64 <= d < 129,
        even_odds_booleans(s, 10).0 == Some(subexp_code(d)),
    ensures
        term_subexp_model(s) == (Some(d), even_odds_booleans(s, 10).1),
{
    let code = subexp_code(d);
    lemma2_to64();
    lemma_bits_of_value((d - 64) as nat, 7);
    let s3 = lemma_subexp_prefix(s, 7, code);
    assert(code.skip(3) =~= bits_of((d - 64) as nat, 7));
    lemma_literal_from_booleans(s3, 7, code.skip(3));
}

#[verifier::spinoff_prover]
proof fn lemma_subexp_top(s: BoolModel, d: nat)
    requires
        129 <= d < 255,
        even_odds_booleans(s, 11).0 == Some(subexp_code(d)),
    ensures
        term_subexp_model(s) == (Some(d), even_odds_booleans(s, 11).1),
{
    let code = subexp_code(d);
    let v = ((d + 1) / 2) as nat;
    lemma2_to64();
    lemma_bits_of_value(v, 7);
    let s3 = lemma_subexp_prefix(s, 8, code);
    let r3 = code.skip(3);
    let s4 = lemma_take_booleans(s3, 7, 1, r3);
    assert(r3.take(7) =~= bits_of(v, 7));
    let last = r3.skip(7);
    assert(last =~= seq![(d + 1) % 2 == 1]);
    lemma_literal_from_booleans(s4, 1, last);
    lemma_bits_value_single((d + 1) % 2 == 1);
}

/// Decoding a probability delta inverts its encoding: when the next booleans (at even
/// odds) are the code of `d`, the delta decoded is `d`, and the decoder stands right
/// after the code.
pub proof fn law_term_subexp_decodes_its_code(s: BoolModel, d: nat)
    requires
        d < 255,
        even_odds_booleans(s, subexp_code(d).len()).0 == Some(subexp_code(d)),
    ensures
        term_subexp_model(s) == (Some(d), even_odds_booleans(s, subexp_code(d).len()).1),
{
    lemma2_to64();
    if d < 16 {
        lemma_bits_of_value(d, 4);
        lemma_subexp_short(s, d);
    } else if d < 32 {
        lemma_bits_of_value((d - 16) as nat, 4);
        lemma_subexp_second(s, d);
    } else if d < 64 {
        lemma_bits_of_value((d - 32) as nat, 5);
        lemma_subexp_third(s, d);
    } else if d < 129 {
        lemma_bits_of_value((d - 64) as nat, 7);
        lemma_subexp_fourth(s, d);
    } else {
        lemma_bits_of_value(((d + 1) / 2) as nat, 7);
        lemma_subexp_top(s, d);
    }
}

/// How the encoder recenters a value `x` around `m`: values up to `2 * m` alternate
/// around `m` (`m` itself first, then above and below), larger ones stay.
pub open spec fn recenter(x: int, m: int) -> int {
    if x > 2 * m {
        x
    } else if x >= m {
        2 * (x - m)
    } else {
        2 * (m - x) - 1
    }
}

/// Inverse recentering undoes recentering: every non-negative value comes back.
pub proof fn law_inv_recenter_undoes_recenter(x: int, m: int)
    requires
        0 <= x,
        0 <= m,
    ensures
        inv_recenter(recenter(x, m), m) == x,
{
}

/// Recentering undoes inverse recentering: every non-negative distance comes back.
pub proof fn law_recenter_undoes_inv_recenter(v: int, m: int)
    requires
        0 <= v,
        0 <= m,
    ensures
        recenter(inv_recenter(v, m), m) == v,
{
}

/// The odd distance `v` and the even distance `v + 1` below `2 * m` land on either side
/// of `m`, at the same distance from it.
pub proof fn law_inv_recenter_pairs_around_m(v: int, m: int)
    requires
        0 <= v < 2 * m,
        v % 2 == 1,
    ensures
        inv_recenter(v, m) + inv_recenter(v + 1, m) == 2 * m,
        inv_recenter(v, m) < m < inv_recenter(v + 1, m),
{
}

/// Some delta index has `v` as its table distance.
pub open spec fn is_table_distance(v: int) -> bool {
    exists|d: int| 0 <= d < 255 && #[trigger] INV_MAP_TABLE@[d] == v
}

/// Every distance from 1 to 254 is the table entry of some delta index, so every
/// recentered distance can be coded.
pub proof fn law_inv_map_table_covers_distances()
    ensures
        forall|v: int| 1 <= v <= 254 ==> #[trigger] is_table_distance(v),
{
    let position: Seq<int> = seq![
        20, 21, 22, 23, 24, 25, 0, 26, 27, 28, 29, 30, 31, 32, 33,
        34, 35, 36, 37, 1, 38, 39, 40, 41, 42, 43, 44, 45, 46, 47,
        48, 49, 2, 50, 51, 52, 53, 54, 55, 56, 57, 58, 59, 60, 61,
        3, 62, 63, 64, 65, 66, 67, 68, 69, 70, 71, 72, 73, 4, 74,
        75, 76, 77, 78, 79, 80, 81, 82, 83, 84, 85, 5, 86, 87, 88,
        89, 90, 91, 92, 93, 94, 95, 96, 97, 6, 98, 99, 100, 101, 102,
        103, 104, 105, 106, 107, 108, 109, 7, 110, 111, 112, 113, 114, 115, 116,
        117, 118, 119, 120, 121, 8, 122, 123, 124, 125, 126, 127, 128, 129, 130,
        131, 132, 133, 9, 134, 135, 136, 137, 138, 139, 140, 141, 142, 143, 144,
        145, 10, 146, 147, 148, 149, 150, 151, 152, 153, 154, 155, 156, 157, 11,
        158, 159, 160, 161, 162, 163, 164, 165, 166, 167, 168, 169, 12, 170, 171,
        172, 173, 174, 175, 176, 177, 178, 179, 180, 181, 13, 182, 183, 184, 185,
        186, 187, 188, 189, 190, 191, 192, 193, 14, 194, 195, 196, 197, 198, 199,
        200, 201, 202, 203, 204, 205, 15, 206, 207, 208, 209, 210, 211, 212, 213,
        214, 215, 216, 217, 16, 218, 219, 220, 221, 222, 223, 224, 225, 226, 227,
        228, 229, 17, 230, 231, 232, 233, 234, 235, 236, 237, 238, 239, 240, 241,
        18, 242, 243, 244, 245, 246, 247, 248, 249, 250, 251, 252, 253, 19,
    ];
    assert forall|v: int| 1 <= v <= 254 implies #[trigger] is_table_distance(v) by {
        let table = INV_MAP_TABLE@;
        assert(table =~= seq![
            7, 20, 33, 46, 59, 72, 85, 98, 111, 124, 137, 150, 163, 176, 189,
            202, 215, 228, 241, 254, 1, 2, 3, 4, 5, 6, 8, 9, 10, 11,
            12, 13, 14, 15, 16, 17, 18, 19, 21, 22, 23, 24, 25, 26, 27,
            28, 29, 30, 31, 32, 34, 35, 36, 37, 38, 39, 40, 41, 42, 43,
            44, 45, 47, 48, 49, 50, 51, 52, 53, 54, 55, 56, 57, 58, 60,
            61, 62, 63, 64, 65, 66, 67, 68, 69, 70, 71, 73, 74, 75, 76,
            77, 78, 79, 80, 81, 82, 83, 84, 86, 87, 88, 89, 90, 91, 92,
            93, 94, 95, 96, 97, 99, 100, 101, 102, 103, 104, 105, 106, 107, 108,
            109, 110, 112, 113, 114, 115, 116, 117, 118, 119, 120, 121, 122, 123, 125,
            126, 127, 128, 129, 130, 131, 132, 133, 134, 135, 136, 138, 139, 140, 141,
            142, 143, 144, 145, 146, 147, 148, 149, 151, 152, 153, 154, 155, 156, 157,
            158, 159, 160, 161, 162, 164, 165, 166, 167, 168, 169, 170, 171, 172, 173,
            174, 175, 177, 178, 179, 180, 181, 182, 183, 184, 185, 186, 187, 188, 190,
            191, 192, 193, 194, 195, 196, 197, 198, 199, 200, 201, 203, 204, 205, 206,
            207, 208, 209, 210, 211, 212, 213, 214, 216, 217, 218, 219, 220, 221, 222,
            223, 224, 225, 226, 227, 229, 230, 231, 232, 233, 234, 235, 236, 237, 238,
            239, 240, 242, 243, 244, 245, 246, 247, 248, 249, 250, 251, 252, 253, 253,
        ]);
        assert(0 <= position[v - 1] < 255 && table[position[v - 1]] == v);
    }
}

/// The new probability is the table distance of the delta, recentered around the old
/// probability and moved up by one in the lower half, and recentered around its
/// mirror `254 - prob` and reflected from 255 in the upper half.
pub proof fn law_inv_remap_recenters_table_distance(delta: int, prob: int)
    requires
        0 <= delta < 255,
        0 <= prob <= 255,
    ensures
        prob <= 127 ==> inv_remap(delta, prob) == 1 + inv_recenter(INV_MAP_TABLE@[delta] as int, prob),
        prob >= 128 ==> inv_remap(delta, prob) == 255 - inv_recenter(
            INV_MAP_TABLE@[delta] as int,
            254 - prob,
        ),
{
}

} // verus!
