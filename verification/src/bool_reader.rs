//! The boolean decoder of a VP9 compressed-header partition.
use vstd::prelude::*;
use bitreader::BitReader;
use bitreader::BitReaderError;
use crate::bits::{unread_bits, read_next_bit, read_bits_u8, read_bits_u64};
use crate::error::Vp9ParserError;
use crate::model::{
    BoolModel, is_normalized, is_loaded, draws_within_budget, renormalize, read_bool_model,
    init_model, literal_model, term_subexp_model, diff_update_model, lemma_split_bounds,
    lemma_read_bool_model, lemma_literal_model, lemma_literal_model_fails_early,
    lemma_term_subexp_model,
};
use crate::remap::inv_remap_prob;

verus! {

/// The arithmetic-decoder registers of a [`BoolReader`].
pub struct DecoderState {
    range: u16,
    value: u16,
    max_bits: u32,
}

impl DecoderState {
    /// Width of the current coding interval.
    pub closed spec fn range(&self) -> int {
        self.range as int
    }

    /// Position of the coded value inside the interval.
    pub closed spec fn value(&self) -> int {
        self.value as int
    }

    /// How many more bits the decoder may take from its reader.
    pub closed spec fn max_bits(&self) -> int {
        self.max_bits as int
    }
}

/// Decodes booleans, literals and probability updates from a partition of a bit
/// reader.
pub struct BoolReader<'a, 'b> {
    /// The reader the partition is read from. It is borrowed for as long as the
    /// decoder lives, and the contracts say where it is left.
    pub br: &'a mut BitReader<'b>,
    /// The decoder's registers.
    pub state: DecoderState,
}

impl<'a, 'b> BoolReader<'a, 'b> {
    /// The decoder's registers together with the bits its reader still holds.
    pub open spec fn model(&self) -> BoolModel {
        BoolModel {
            range: self.state.range(),
            value: self.state.value(),
            max_bits: self.state.max_bits(),
            unread: unread_bits(*self.br),
        }
    }

    /// The decoder is ready to decode its next boolean.
    pub open spec fn is_valid(&self) -> bool {
        is_normalized(self.model())
    }

    /// Opens a partition of `sz` bytes on `br`: loads its first byte and decodes the
    /// marker boolean, which must be false.
    pub fn init(br: &'a mut BitReader<'b>, sz: u32) -> (res: Result<Self, Vp9ParserError>)
        requires
            sz * 8 <= u32::MAX || unread_bits(*old(br)).len() < 8,
        ensures
            sz < 1 ==> (res matches Err(Vp9ParserError::InvalidPadding) && *final(br) == *old(br)),
            sz >= 1 && unread_bits(*old(br)).len() < 8 ==> (res matches Err(Vp9ParserError::BitReader(_))
                && *final(br) == *old(br)),
            sz >= 1 && unread_bits(*old(br)).len() >= 8 ==> {
                let (marker, s) = read_bool_model(init_model(unread_bits(*old(br)), sz as int), 128);
                &&& marker is None ==> (res matches Err(Vp9ParserError::BitReader(_))
                    && unread_bits(*final(br)) == s.unread)
                &&& marker == Some(true) ==> (res matches Err(Vp9ParserError::InvalidPadding)
                    && unread_bits(*final(br)) == s.unread)
                &&& marker == Some(false) ==> (res matches Ok(r) && r.model() == s && r.is_valid()
                    && *final(br) == *final(r.br))
                &&& draws_within_budget(init_model(unread_bits(*old(br)), sz as int), s)
            },
    {
        if sz < 1 {
            return Err(Vp9ParserError::InvalidPadding);
        }
        let ghost bits = unread_bits(*br);
        let value = match read_bits_u8(br, 8) {
            Ok(v) => v as u16,
            Err(e) => {
                return Err(Vp9ParserError::BitReader(e));
            },
        };
        let mut reader = BoolReader { br, state: DecoderState { range: 255, value, max_bits: 8 * sz - 8 } };
        assert(reader.model() == init_model(bits, sz as int));
        proof {
            lemma_read_bool_model(reader.model(), 128);
        }
        let marker = reader.decode_bool(128)?;
        if marker {
            return Err(Vp9ParserError::InvalidPadding);
        }
        Ok(reader)
    }

    /// Decodes one boolean whose probability of being false is `p / 256`.
    pub fn read_bool(&mut self, p: u8) -> (res: Result<bool, Vp9ParserError>)
        requires
            old(self).is_valid(),
        ensures
            ({
                let (b, t) = read_bool_model(old(self).model(), p as int);
                &&& final(self).model() == t
                &&& b matches Some(bit) ==> (res matches Ok(r) && r == bit)
                &&& b is None ==> res matches Err(Vp9ParserError::BitReader(_))
            }),
            res is Ok ==> final(self).is_valid(),
            draws_within_budget(old(self).model(), final(self).model()),
            *final(final(self).br) == *final(old(self).br),
    {
        proof {
            lemma_read_bool_model(self.model(), p as int);
        }
        self.decode_bool(p)
    }

    /// Decodes an `n`-bit unsigned literal, most significant bit first, each bit at
    /// even odds.
    pub fn read_literal(&mut self, n: u8) -> (res: Result<u32, Vp9ParserError>)
        requires
            old(self).is_valid(),
            n <= 32,
        ensures
            ({
                let (x, t) = literal_model(old(self).model(), n as nat);
                &&& final(self).model() == t
                &&& x matches Some(v) ==> (res matches Ok(r) && r == v)
                &&& x is None ==> res matches Err(Vp9ParserError::BitReader(_))
            }),
            res matches Ok(r) ==> r < vstd::arithmetic::power2::pow2(n as nat) && final(self).is_valid(),
            draws_within_budget(old(self).model(), final(self).model()),
            *final(final(self).br) == *final(old(self).br),
    {
        let ghost s0 = self.model();
        let mut x: u32 = 0;
        let mut i: u8 = 0;
        proof {
            vstd::arithmetic::power2::lemma2_to64();
            lemma_literal_model(s0, 0);
        }
        let mut failure: Option<Vp9ParserError> = None;
        while i < n
            invariant_except_break
                i <= n <= 32,
                self.is_valid(),
                literal_model(s0, i as nat) == (Some(x as nat), self.model()),
                x < vstd::arithmetic::power2::pow2(i as nat),
                failure is None,
            invariant
                draws_within_budget(s0, self.model()),
                *final(self.br) == *final(old(self).br),
            ensures
                failure is None ==> i == n && literal_model(s0, n as nat) == (Some(x as nat), self.model())
                    && x < vstd::arithmetic::power2::pow2(n as nat) && self.is_valid(),
                failure matches Some(e) ==> e is BitReader && literal_model(s0, n as nat) == (None::<nat>, self.model()),
            decreases n - i,
        {
            let ghost before = self.model();
            proof {
                lemma_read_bool_model(before, 128);
            }
            match self.read_bool(128) {
                Ok(b) => {
                    proof {
                        vstd::arithmetic::power2::lemma_pow2_unfold((i + 1) as nat);
                        vstd::arithmetic::power2::lemma_pow2_strictly_increases(i as nat, 32);
                        vstd::arithmetic::power2::lemma2_to64();
                    }
                    x = 2 * x + (b as u32);
                    i += 1;
                },
                Err(e) => {
                    proof {
                        lemma_literal_model_fails_early(s0, (i + 1) as nat, n as nat);
                        crate::model::lemma_draws_within_budget_trans(s0, before, self.model());
                    }
                    failure = Some(e);
                    break;
                },
            }
            proof {
                crate::model::lemma_draws_within_budget_trans(s0, before, self.model());
            }
        }
        if let Some(e) = failure {
            return Err(e);
        }
        Ok(x)
    }

    /// Decodes a sub-exponentially coded probability delta (a value below 255).
    pub fn decode_term_subexp(&mut self) -> (res: Result<u8, Vp9ParserError>)
        requires
            old(self).is_valid(),
        ensures
            ({
                let (d, t) = term_subexp_model(old(self).model());
                &&& final(self).model() == t
                &&& d matches Some(v) ==> (res matches Ok(r) && r == v)
                &&& d is None ==> res matches Err(Vp9ParserError::BitReader(_))
            }),
            res matches Ok(r) ==> r < 255 && final(self).is_valid(),
            draws_within_budget(old(self).model(), final(self).model()),
            *final(final(self).br) == *final(old(self).br),
    {
        proof {
            lemma_term_subexp_model(self.model());
            vstd::arithmetic::power2::lemma2_to64();
        }
        let first = match self.read_literal(1) {
            Ok(v) => v,
            Err(e) => {
                return Err(e);
            },
        };
        if first == 0 {
            return match self.read_literal(4) {
                Ok(v) => Ok(v as u8),
                Err(e) => Err(e),
            };
        }
        let second = match self.read_literal(1) {
            Ok(v) => v,
            Err(e) => {
                return Err(e);
            },
        };
        if second == 0 {
            return match self.read_literal(4) {
                Ok(v) => Ok((v + 16) as u8),
                Err(e) => Err(e),
            };
        }
        let third = match self.read_literal(1) {
            Ok(v) => v,
            Err(e) => {
                return Err(e);
            },
        };
        if third == 0 {
            return match self.read_literal(5) {
                Ok(v) => Ok((v + 32) as u8),
                Err(e) => Err(e),
            };
        }
        let v = match self.read_literal(7) {
            Ok(v) => v,
            Err(e) => {
                return Err(e);
            },
        };
        if v < 65 {
            return Ok((v + 64) as u8);
        }
        let bit = match self.read_literal(1) {
            Ok(b) => b,
            Err(e) => {
                return Err(e);
            },
        };
        assert(v << 1 == 2 * v) by (bit_vector)
            requires
                v < 128,
        ;
        Ok(((v << 1) - 1 + bit) as u8)
    }

    /// Decodes a probability update for `prob`: a flag at 252/256 odds of being false,
    /// then, when it is set, a delta whose inverse remapping is the new probability.
    pub fn diff_update_prob(&mut self, prob: u8) -> (res: Result<u8, Vp9ParserError>)
        requires
            old(self).is_valid(),
        ensures
            ({
                let (q, t) = diff_update_model(old(self).model(), prob as int);
                &&& final(self).model() == t
                &&& q matches Some(v) ==> (res matches Ok(r) && r == v)
                &&& q is None ==> res matches Err(Vp9ParserError::BitReader(_))
            }),
            res matches Ok(r) ==> (r == prob || 1 <= r) && final(self).is_valid(),
            draws_within_budget(old(self).model(), final(self).model()),
            *final(final(self).br) == *final(old(self).br),
    {
        let ghost s0 = self.model();
        proof {
            lemma_read_bool_model(s0, 252);
        }
        let update_prob = match self.read_bool(252) {
            Ok(b) => b,
            Err(e) => {
                return Err(e);
            },
        };
        if update_prob {
            let ghost s1 = self.model();
            proof {
                lemma_term_subexp_model(s1);
            }
            let delta_prob = match self.decode_term_subexp() {
                Ok(d) => d,
                Err(e) => {
                    proof {
                        crate::model::lemma_draws_within_budget_trans(s0, s1, self.model());
                    }
                    return Err(e);
                },
            };
            proof {
                crate::model::lemma_draws_within_budget_trans(s0, s1, self.model());
            }
            Ok(inv_remap_prob(delta_prob, prob))
        } else {
            Ok(prob)
        }
    }

    /// Moves the reader past whatever is left of the partition, reading at most 64
    /// bits at a time. The decoder's registers are left as they are.
    pub fn exit(&mut self) -> (res: Result<(), Vp9ParserError>)
        ensures
            final(self).state == old(self).state,
            ({
                let s = old(self).model();
                &&& s.max_bits <= s.unread.len() ==> res is Ok
                    && final(self).model().unread == s.unread.skip(s.max_bits)
                &&& s.max_bits > s.unread.len() ==> (res matches Err(Vp9ParserError::BitReader(_))
                    && final(self).model().unread == s.unread.skip(64 * (s.unread.len() / 64) as int))
            }),
            *final(final(self).br) == *final(old(self).br),
    {
        let ghost s0 = self.model();
        let mut remaining = self.state.max_bits;
        let ghost mut chunks: int = 0;
        let mut failure: Option<BitReaderError> = None;
        while remaining > 0
            invariant_except_break
                failure is None,
            invariant
                self.state == old(self).state,
                remaining <= s0.max_bits,
                remaining > 0 ==> s0.max_bits - remaining == 64 * chunks,
                s0.max_bits - remaining <= s0.unread.len(),
                unread_bits(*self.br) == s0.unread.skip(s0.max_bits - remaining),
                *final(self.br) == *final(old(self).br),
            ensures
                failure is None ==> remaining == 0,
                failure is Some ==> s0.unread.len() < s0.max_bits - remaining + (if remaining < 64 { remaining as int } else { 64 }),
            decreases remaining,
        {
            let chunk = if remaining < 64 {
                remaining
            } else {
                64
            };
            match read_bits_u64(self.br, chunk as u8) {
                Ok(_) => {},
                Err(e) => {
                    failure = Some(e);
                    break;
                },
            }
            assert(unread_bits(*self.br) =~= s0.unread.skip(s0.max_bits - (remaining - chunk)));
            remaining -= chunk;
            proof {
                chunks = chunks + 1;
            }
        }
        if let Some(e) = failure {
            assert(s0.unread.len() / 64 == chunks);
            return Err(Vp9ParserError::BitReader(e));
        }
        Ok(())
    }

    /// Decodes one boolean from a loaded state (the value may still equal the range).
    fn decode_bool(&mut self, p: u8) -> (res: Result<bool, Vp9ParserError>)
        requires
            is_loaded(old(self).model()),
        ensures
            ({
                let (b, t) = read_bool_model(old(self).model(), p as int);
                &&& final(self).model() == t
                &&& b matches Some(bit) ==> (res matches Ok(r) && r == bit)
                &&& b is None ==> res matches Err(Vp9ParserError::BitReader(_))
            }),
            *final(final(self).br) == *final(old(self).br),
    {
        let ghost s0 = self.model();
        proof {
            lemma_split_bounds(s0.range, p as int);
        }
        let r1: u16 = self.state.range - 1;
        let prod: u16 = r1 * (p as u16);
        assert(prod >> 8 == prod / 256) by (bit_vector);
        let split: u16 = 1 + (prod >> 8);
        let bit = if self.state.value < split {
            self.state.range = split;
            false
        } else {
            self.state.range -= split;
            self.state.value -= split;
            true
        };
        let ghost narrowed = self.model();
        assert(read_bool_model(s0, p as int) == (
            if renormalize(narrowed).0 { Some(bit) } else { None },
            renormalize(narrowed).1,
        ));
        let mut failure: Option<BitReaderError> = None;
        while self.state.range < 128
            invariant_except_break
                1 <= self.state.range <= 255,
                self.state.value < 2 * self.state.range,
                failure is None,
            invariant
                renormalize(self.model()) == renormalize(narrowed),
                *final(self.br) == *final(old(self).br),
            ensures
                failure is None ==> self.state.range >= 128,
                failure is Some ==> renormalize(narrowed) == (false, self.model()),
            decreases 256 - self.state.range,
        {
            let new_bit = if self.state.max_bits > 0 {
                match read_next_bit(self.br) {
                    Ok(b) => {
                        self.state.max_bits -= 1;
                        b
                    },
                    Err(e) => {
                        failure = Some(e);
                        break;
                    },
                }
            } else {
                false
            };
            let r = self.state.range;
            assert(r << 1 == 2 * r) by (bit_vector)
                requires
                    r < 128,
            ;
            self.state.range = r << 1;
            let v = self.state.value;
            assert(v << 1 == 2 * v) by (bit_vector)
                requires
                    v < 256,
            ;
            self.state.value = (v << 1) + (new_bit as u16);
        }
        if let Some(e) = failure {
            return Err(Vp9ParserError::BitReader(e));
        }
        Ok(bit)
    }
}

} // verus!
