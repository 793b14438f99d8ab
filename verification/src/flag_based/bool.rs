use vstd::prelude::*;
use crate::Traversal;
use crate::flag_based::{FlagVec, true_from};

verus! {

/// A flag vector that spends one `bool` per flag.
pub struct BoolVec {
    flags: Vec<bool>,
}

impl FlagVec for BoolVec {
    type TrueFlagsIter<'a> = TrueFlagsIterator<'a>;

    open spec fn wf(&self) -> bool {
        true
    }

    closed spec fn view(&self) -> Seq<bool> {
        self.flags@
    }

    fn new() -> (r: Self) {
        return Self { flags: Vec::new() }
    }

    fn with_flags(num_flags: usize, value: bool) -> (r: Self) {
        let r = Self { flags: vec![value; num_flags] };
        assert(r@ =~= Seq::new(num_flags as nat, |i: int| value));
        return r
    }

    fn num_flags(&self) -> (r: usize) {
        return self.flags.len()
    }

    fn get_flag(&self, flag: usize) -> (r: bool) {
        return self.flags[flag]
    }

    fn set_flag(&mut self, flag: usize, value: bool) {
        self.flags[flag] = value;
    }

    fn add_flags(&mut self, num_flags: usize, value: bool) {
        let new_num_flags: usize = self.flags.len() + num_flags;
        self.flags.resize(new_num_flags, value);
        assert(self@ =~= old(self)@ + Seq::new(num_flags as nat, |i: int| value));
    }

    fn find_a_true_flag(&self) -> (r: Option<usize>) {
        let num_flags: usize = self.flags.len();
        for flag in 0..num_flags
            invariant
                num_flags == self.flags.len(),
                forall|j: int| 0 <= j < flag ==> !self.flags[j],
        {
            if self.flags[flag] == true {
                return Some(flag)
            }
        }
        return None
    }

    fn true_flags<'a>(&'a self) -> (r: TrueFlagsIterator<'a>) {
        return TrueFlagsIterator::new(&self.flags)
    }
}

/// Walks the true flags of a vector of booleans in ascending order.
pub struct TrueFlagsIterator<'a> {
    bits: &'a Vec<bool>,
    curr_bit: usize,
}

impl<'a> TrueFlagsIterator<'a> {
    pub fn new(bits: &'a Vec<bool>) -> (r: Self)
        ensures
            r.wf(),
            r.remaining() == true_from(bits@, 0),
    {
        return Self { bits, curr_bit: 0 }
    }
}

impl<'a> Traversal for TrueFlagsIterator<'a> {
    type Item = usize;

    closed spec fn wf(&self) -> bool {
        self.curr_bit <= self.bits.len()
    }

    closed spec fn remaining(&self) -> Seq<usize> {
        true_from(self.bits@, self.curr_bit as int)
    }

    fn next(&mut self) -> (r: Option<usize>) {
        loop
            invariant
                self.bits == old(self).bits,
                self.wf(),
                self.remaining() == old(self).remaining(),
            decreases self.bits.len() - self.curr_bit,
        {
            if self.curr_bit >= self.bits.len() {
                return None
            }
            if self.bits[self.curr_bit] == true {
                let true_bit: usize = self.curr_bit;
                self.curr_bit += 1;
                assert(old(self).remaining().drop_first() =~= self.remaining());
                return Some(true_bit)
            }
            self.curr_bit += 1;
        }
    }
}

} // verus!
