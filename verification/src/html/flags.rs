//! The scanner's flag register: eight booleans packed into one byte.

use vstd::prelude::*;

verus! {

/// Position of the flag "a `<` was read and the tag is still open".
pub const OPEN_TAG: u8 = 0;

/// Position of the flag "the first byte of the tag's name was read".
pub const NAME_ISSUED: u8 = 1;

/// Position of the reserved end-tag flag.
pub const END_TAG: u8 = 2;

/// Position of the reserved flag "inside a quoted attribute value".
pub const INSIDE_QUOTE: u8 = 7;

/// Whether the bit at position `i` of `bits` is set.
spec fn flag_at(bits: u8, i: int) -> bool {
    bits & (1u8 << (i as u8)) != 0
}

/// A register of eight flags.  Its model is the sequence of the eight
/// booleans, indexed by position.
pub struct HtmlFlags(u8);

impl View for HtmlFlags {
    type V = Seq<bool>;

    closed spec fn view(&self) -> Seq<bool> {
        Seq::new(8, |i: int| flag_at(self.0, i))
    }
}

proof fn lemma_zero_is_cleared(flags: HtmlFlags)
    requires
        flags.0 == 0,
    ensures
        flags@ == HtmlFlags::cleared(),
{
    assert forall|i: int| 0 <= i < 8 implies !#[trigger] flag_at(0u8, i) by {
        let j = i as u8;
        assert(0u8 & (1u8 << j) == 0) by (bit_vector);
    }
    assert(flags@ =~= HtmlFlags::cleared());
}

impl HtmlFlags {
    /// The model of a register with every flag cleared.
    pub open spec fn cleared() -> Seq<bool> {
        Seq::new(8, |i: int| false)
    }

    pub open spec fn open_tag(&self) -> bool {
        self@[OPEN_TAG as int]
    }

    pub open spec fn name_issued(&self) -> bool {
        self@[NAME_ISSUED as int]
    }

    pub open spec fn end_tag(&self) -> bool {
        self@[END_TAG as int]
    }

    pub open spec fn inside_quote(&self) -> bool {
        self@[INSIDE_QUOTE as int]
    }

    /// Every register holds exactly eight flags.
    pub proof fn lemma_width(&self)
        ensures
            self@.len() == 8,
    {
    }

    /// A register with every flag cleared.
    pub fn new() -> (flags: Self)
        ensures
            flags@ == Self::cleared(),
    {
        let flags = HtmlFlags(0);
        proof {
            lemma_zero_is_cleared(flags);
        }
        flags
    }

    /// The flag at position `bit`.
    pub fn get_bit(&self, bit: u8) -> (set: bool)
        requires
            bit < 8,
        ensures
            set == self@[bit as int],
    {
        (self.0 & (1u8 << bit)) > 0
    }

    /// Sets the flag at position `bit` to `v` and leaves the others.
    pub fn set_bit(&mut self, bit: u8, v: bool)
        requires
            bit < 8,
        ensures
            final(self)@ == old(self)@.update(bit as int, v),
    {
        let ghost before = self.0;
        if v {
            self.0 |= 1u8 << bit
        } else {
            self.0 &= !(1u8 << bit)
        }
        proof {
            let after = self.0;
            assert forall|i: int| 0 <= i < 8 implies #[trigger] flag_at(after, i) == (if i == bit {
                v
            } else {
                flag_at(before, i)
            }) by {
                let j = i as u8;
                assert(((before | (1u8 << bit)) & (1u8 << j) != 0) == (j == bit || before & (1u8
                    << j) != 0)) by (bit_vector)
                    requires
                        j < 8,
                        bit < 8,
                ;
                assert(((before & !(1u8 << bit)) & (1u8 << j) != 0) == (j != bit && before & (1u8
                    << j) != 0)) by (bit_vector)
                    requires
                        j < 8,
                        bit < 8,
                ;
            }
            assert(self@ =~= old(self)@.update(bit as int, v));
        }
    }

    /// Clears every flag.
    pub fn reset(&mut self)
        ensures
            final(self)@ == Self::cleared(),
    {
        self.0 = 0;
        proof {
            lemma_zero_is_cleared(*self);
        }
    }

    pub fn get_open_tag(&self) -> (set: bool)
        ensures
            set == self.open_tag(),
    {
        self.get_bit(OPEN_TAG)
    }

    pub fn get_name_issued(&self) -> (set: bool)
        ensures
            set == self.name_issued(),
    {
        self.get_bit(NAME_ISSUED)
    }

    pub fn get_end_tag(&self) -> (set: bool)
        ensures
            set == self.end_tag(),
    {
        self.get_bit(END_TAG)
    }

    pub fn get_inside_quote(&self) -> (set: bool)
        ensures
            set == self.inside_quote(),
    {
        self.get_bit(INSIDE_QUOTE)
    }

    pub fn set_open_tag(&mut self, v: bool)
        ensures
            final(self)@ == old(self)@.update(OPEN_TAG as int, v),
    {
        self.set_bit(OPEN_TAG, v)
    }

    pub fn set_name_issued(&mut self, v: bool)
        ensures
            final(self)@ == old(self)@.update(NAME_ISSUED as int, v),
    {
        self.set_bit(NAME_ISSUED, v)
    }

    pub fn set_end_tag(&mut self, v: bool)
        ensures
            final(self)@ == old(self)@.update(END_TAG as int, v),
    {
        self.set_bit(END_TAG, v)
    }

    pub fn set_inside_quote(&mut self, v: bool)
        ensures
            final(self)@ == old(self)@.update(INSIDE_QUOTE as int, v),
    {
        self.set_bit(INSIDE_QUOTE, v)
    }
}

} // verus!
