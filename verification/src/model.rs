//! The mathematical model of the boolean decoder: its state, what one decoded
//! boolean does to that state, and the composite reads built from it.
use vstd::prelude::*;
use crate::bits::bit_value;
use crate::bits::bits_value;
use crate::remap::inv_remap;

verus! {

/// The state of a boolean decoder together with the bits its reader still holds.
pub struct BoolModel {
    /// Width of the current coding interval.
    pub range: int,
    /// Position of the coded value inside the interval.
    pub value: int,
    /// How many more bits the decoder may take from the reader.
    pub max_bits: int,
    /// The bits the underlying reader has not handed out yet.
    pub unread: Seq<bool>,
}

/// A decoder state from which the next boolean can be decoded: the interval is
/// normalized and the value lies inside it.
pub open spec fn is_normalized(s: BoolModel) -> bool {
    &&& 128 <= s.range <= 255
    &&& 0 <= s.value < s.range
    &&& s.max_bits >= 0
}

/// The state right after the first byte has been loaded: like a normalized state,
/// except that the value may still equal the range.
pub open spec fn is_loaded(s: BoolModel) -> bool {
    &&& 128 <= s.range <= 255
    &&& 0 <= s.value <= s.range
    &&& s.max_bits >= 0
}

/// `after` took exactly `before.max_bits - after.max_bits` bits from the front of the
/// reader, never more than it was allowed to nor more than the reader held.
pub open spec fn draws_within_budget(before: BoolModel, after: BoolModel) -> bool {
    &&& 0 <= after.max_bits <= before.max_bits
    &&& before.max_bits - after.max_bits <= before.unread.len()
    &&& after.unread == before.unread.skip(before.max_bits - after.max_bits)
}

/// Where the interval of width `range` is cut for a boolean whose probability of
/// being false is `prob / 256`.
pub open spec fn split(range: int, prob: int) -> int {
    1 + ((range - 1) * prob) / 256
}

/// Doubles the interval until it is at least 128 wide, shifting one bit into the
/// value each time: a bit of the reader while the budget lasts, a zero after that.
/// The flag is false when the reader ran dry while budget was left; the state is
/// then the one in which that read was attempted.
pub open spec fn renormalize(s: BoolModel) -> (bool, BoolModel)
    decreases 256 - s.range,
{
    if s.range >= 128 || s.range <= 0 {
        (true, s)
    } else if s.max_bits > 0 {
        if s.unread.len() == 0 {
            (false, s)
        } else {
            renormalize(
                BoolModel {
                    range: 2 * s.range,
                    value: 2 * s.value + bit_value(s.unread[0]),
                    max_bits: s.max_bits - 1,
                    unread: s.unread.drop_first(),
                },
            )
        }
    } else {
        renormalize(
            BoolModel { range: 2 * s.range, value: 2 * s.value, max_bits: s.max_bits, unread: s.unread },
        )
    }
}

/// The boolean decoded from `s` with probability `prob / 256` of being false, and
/// the state afterwards; `None` when the reader ran dry.
pub open spec fn read_bool_model(s: BoolModel, prob: int) -> (Option<bool>, BoolModel) {
    let cut = split(s.range, prob);
    let bit = s.value >= cut;
    let narrowed = if bit {
        BoolModel { range: s.range - cut, value: s.value - cut, max_bits: s.max_bits, unread: s.unread }
    } else {
        BoolModel { range: cut, value: s.value, max_bits: s.max_bits, unread: s.unread }
    };
    let (ok, t) = renormalize(narrowed);
    (if ok { Some(bit) } else { None }, t)
}

/// The unsigned number spelled by `n` booleans decoded at even odds, most
/// significant first, and the state afterwards; `None` when the reader ran dry.
pub open spec fn literal_model(s: BoolModel, n: nat) -> (Option<nat>, BoolModel)
    decreases n,
{
    if n == 0 {
        (Some(0), s)
    } else {
        let (high, s1) = literal_model(s, (n - 1) as nat);
        match high {
            None => (None, s1),
            Some(x) => {
                let (b, s2) = read_bool_model(s1, 128);
                match b {
                    None => (None, s2),
                    Some(b) => (Some(2 * x + bit_value(b)), s2),
                }
            },
        }
    }
}

/// `o` moved up by `k`.
pub open spec fn shifted(o: Option<nat>, k: nat) -> Option<nat> {
    match o {
        None => None,
        Some(v) => Some(v + k),
    }
}

/// The sub-exponentially coded probability delta: a prefix of up to three flag bits
/// chooses among `0..16`, `16..32`, `32..64` and `64..255`; the last range is coded
/// with 7 bits, and with one more bit when the 7-bit value is 65 or more.
pub open spec fn term_subexp_model(s: BoolModel) -> (Option<nat>, BoolModel) {
    let (a, s1) = literal_model(s, 1);
    match a {
        None => (None, s1),
        Some(a) => if a == 0 {
            literal_model(s1, 4)
        } else {
            let (b, s2) = literal_model(s1, 1);
            match b {
                None => (None, s2),
                Some(b) => if b == 0 {
                    let (v, s3) = literal_model(s2, 4);
                    (shifted(v, 16), s3)
                } else {
                    let (c, s3) = literal_model(s2, 1);
                    match c {
                        None => (None, s3),
                        Some(c) => if c == 0 {
                            let (v, s4) = literal_model(s3, 5);
                            (shifted(v, 32), s4)
                        } else {
                            let (v, s4) = literal_model(s3, 7);
                            match v {
                                None => (None, s4),
                                Some(v) => if v < 65 {
                                    (Some(v + 64), s4)
                                } else {
                                    let (bit, s5) = literal_model(s4, 1);
                                    match bit {
                                        None => (None, s5),
                                        Some(bit) => (Some((2 * v - 1 + bit) as nat), s5),
                                    }
                                },
                            }
                        },
                    }
                },
            }
        },
    }
}

/// The state right after a partition of `sz` bytes has been opened on a reader
/// holding `bits`: its first byte loaded as the value, the rest as budget.
pub open spec fn init_model(bits: Seq<bool>, sz: int) -> BoolModel {
    BoolModel { range: 255, value: bits_value(bits.take(8)) as int, max_bits: 8 * sz - 8, unread: bits.skip(8) }
}

/// A probability update: a flag decoded with probability 252/256 of being false; when
/// it is set, a delta follows and the new probability is its inverse remapping around
/// `prob`, otherwise `prob` stays.
pub open spec fn diff_update_model(s: BoolModel, prob: int) -> (Option<int>, BoolModel) {
    let (update, s1) = read_bool_model(s, 252);
    match update {
        None => (None, s1),
        Some(false) => (Some(prob), s1),
        Some(true) => {
            let (d, s2) = term_subexp_model(s1);
            match d {
                None => (None, s2),
                Some(d) => (Some(inv_remap(d as int, prob)), s2),
            }
        },
    }
}

// ---------------------------------------------------------------------------
// Lemmas on the model
// ---------------------------------------------------------------------------

/// Renormalization ends with a normalized interval (or stops on a dry reader with the
/// interval still narrow), keeps the value below twice the range, keeps it below the
/// range when it started there, and takes its bits from the front of the reader
/// within the budget.
pub proof fn lemma_renormalize(s: BoolModel)
    requires
        1 <= s.range <= 255,
        0 <= s.value < 2 * s.range,
        s.max_bits >= 0,
    ensures
        ({
            let (ok, t) = renormalize(s);
            &&& ok ==> 128 <= t.range <= 255
            &&& !ok ==> 1 <= t.range < 128 && t.max_bits > 0 && t.unread.len() == 0
            &&& 0 <= t.value < 2 * t.range
            &&& s.value < s.range ==> t.value < t.range
            &&& draws_within_budget(s, t)
        }),
    decreases 256 - s.range,
{
    if s.range >= 128 {
        assert(s.unread.skip(0) =~= s.unread);
    } else if s.max_bits > 0 {
        if s.unread.len() == 0 {
            assert(s.unread.skip(0) =~= s.unread);
        } else {
            let n = BoolModel {
                range: 2 * s.range,
                value: 2 * s.value + bit_value(s.unread[0]),
                max_bits: s.max_bits - 1,
                unread: s.unread.drop_first(),
            };
            lemma_renormalize(n);
            let t = renormalize(n).1;
            assert(t.unread =~= s.unread.skip(s.max_bits - t.max_bits));
        }
    } else {
        let n = BoolModel { range: 2 * s.range, value: 2 * s.value, max_bits: s.max_bits, unread: s.unread };
        lemma_renormalize(n);
    }
}

/// The cut lies strictly inside a normalized interval.
pub proof fn lemma_split_bounds(range: int, prob: int)
    requires
        128 <= range <= 255,
        0 <= prob <= 255,
    ensures
        1 <= split(range, prob) < range,
{
    assert(0 <= (range - 1) * prob <= (range - 1) * 255) by (nonlinear_arith)
        requires
            128 <= range <= 255,
            0 <= prob <= 255,
    ;
    assert(((range - 1) * 255) / 256 < range - 1) by (nonlinear_arith)
        requires
            128 <= range <= 255,
    ;
    assert(((range - 1) * prob) / 256 <= ((range - 1) * 255) / 256) by (nonlinear_arith)
        requires
            0 <= (range - 1) * prob <= (range - 1) * 255,
    ;
}

/// Decoding one boolean from a loaded state leaves a normalized interval when it
/// succeeds; the value stays inside it whenever it started strictly inside, or the
/// decoded boolean is false; and the reader is drawn on within the budget.
pub proof fn lemma_read_bool_model(s: BoolModel, prob: int)
    requires
        is_loaded(s),
        0 <= prob <= 255,
    ensures
        ({
            let (b, t) = read_bool_model(s, prob);
            &&& b is Some ==> 128 <= t.range <= 255
            &&& b is None ==> t.max_bits > 0 && t.unread.len() == 0
            &&& 0 <= t.value < 2 * t.range
            &&& (s.value < s.range || b == Some(false)) ==> t.value < t.range
            &&& b is Some && s.value < s.range ==> is_normalized(t)
            &&& draws_within_budget(s, t)
        }),
{
    lemma_split_bounds(s.range, prob);
    let cut = split(s.range, prob);
    let bit = s.value >= cut;
    let narrowed = if bit {
        BoolModel { range: s.range - cut, value: s.value - cut, max_bits: s.max_bits, unread: s.unread }
    } else {
        BoolModel { range: cut, value: s.value, max_bits: s.max_bits, unread: s.unread }
    };
    lemma_renormalize(narrowed);
}

/// A decoded literal of `n` bits is below `2^n`; decoding it from a normalized state
/// leaves a normalized state when it succeeds, and draws on the reader within the
/// budget either way.
pub proof fn lemma_literal_model(s: BoolModel, n: nat)
    requires
        is_normalized(s),
    ensures
        ({
            let (x, t) = literal_model(s, n);
            &&& x matches Some(v) ==> v < vstd::arithmetic::power2::pow2(n) && is_normalized(t)
            &&& x is None ==> t.unread.len() == 0
            &&& draws_within_budget(s, t)
        }),
    decreases n,
{
    if n == 0 {
        vstd::arithmetic::power2::lemma2_to64();
        assert(s.unread.skip(0) =~= s.unread);
    } else {
        lemma_literal_model(s, (n - 1) as nat);
        vstd::arithmetic::power2::lemma_pow2_unfold(n);
        let (high, s1) = literal_model(s, (n - 1) as nat);
        if high is Some {
            lemma_read_bool_model(s1, 128);
            let s2 = read_bool_model(s1, 128).1;
            assert(s2.unread =~= s.unread.skip(s.max_bits - s2.max_bits));
        }
    }
}

/// Decoding a probability delta from a normalized state yields a value below 255 and
/// a normalized state when it succeeds, and draws on the reader within the budget.
pub proof fn lemma_term_subexp_model(s: BoolModel)
    requires
        is_normalized(s),
    ensures
        ({
            let (d, t) = term_subexp_model(s);
            &&& d matches Some(v) ==> v < 255 && is_normalized(t)
            &&& d is None ==> t.unread.len() == 0
            &&& draws_within_budget(s, t)
        }),
{
    vstd::arithmetic::power2::lemma2_to64();
    lemma_literal_model(s, 1);
    let (a, s1) = literal_model(s, 1);
    if let Some(a) = a {
        if a == 0 {
            lemma_literal_model(s1, 4);
            lemma_draws_within_budget_trans(s, s1, literal_model(s1, 4).1);
        } else {
            lemma_literal_model(s1, 1);
            let (b, s2) = literal_model(s1, 1);
            lemma_draws_within_budget_trans(s, s1, s2);
            if let Some(b) = b {
                if b == 0 {
                    lemma_literal_model(s2, 4);
                    lemma_draws_within_budget_trans(s, s2, literal_model(s2, 4).1);
                } else {
                    lemma_literal_model(s2, 1);
                    let (c, s3) = literal_model(s2, 1);
                    lemma_draws_within_budget_trans(s, s2, s3);
                    if let Some(c) = c {
                        if c == 0 {
                            lemma_literal_model(s3, 5);
                            lemma_draws_within_budget_trans(s, s3, literal_model(s3, 5).1);
                        } else {
                            lemma_literal_model(s3, 7);
                            let (v, s4) = literal_model(s3, 7);
                            lemma_draws_within_budget_trans(s, s3, s4);
                            if let Some(v) = v {
                                if v >= 65 {
                                    lemma_literal_model(s4, 1);
                                    lemma_draws_within_budget_trans(s, s4, literal_model(s4, 1).1);
                                }
                            }
                        }
                    }
                }
            }
        }
    }
}

/// Once a literal has failed, reading it longer fails at the same point.
pub proof fn lemma_literal_model_fails_early(s: BoolModel, k: nat, n: nat)
    requires
        k <= n,
        literal_model(s, k).0 is None,
    ensures
        literal_model(s, n) == literal_model(s, k),
    decreases n,
{
    if n > k {
        lemma_literal_model_fails_early(s, k, (n - 1) as nat);
    }
}

/// Drawing within budget composes.
pub proof fn lemma_draws_within_budget_trans(a: BoolModel, b: BoolModel, c: BoolModel)
    requires
        draws_within_budget(a, b),
        draws_within_budget(b, c),
    ensures
        draws_within_budget(a, c),
{
    assert(c.unread =~= a.unread.skip(a.max_bits - c.max_bits));
}

} // verus!
