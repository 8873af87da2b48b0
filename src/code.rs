//! Codes: sequences of numeric-keypad keys, each with the numeric value of its
//! digits, and the chain cost of typing one.
use vstd::prelude::*;
use vstd::string::StrSliceExecFns;
use crate::estimate::min_total;
use crate::expand::{all_keys, choices};
use crate::keypad::{Keypad, numeric_pad};

verus! {

pub open spec fn is_digit(c: char) -> bool {
    '0' <= c && c <= '9'
}

pub open spec fn digit_of(c: char) -> nat {
    (c as u32 - '0' as u32) as nat
}

/// The digits of `keys`, read in order as a decimal number; other symbols are
/// skipped.
pub open spec fn digits_value(keys: Seq<char>) -> nat
    decreases keys.len(),
{
    if keys.len() == 0 {
        0
    } else if is_digit(keys.last()) {
        10 * digits_value(keys.drop_last()) + digit_of(keys.last())
    } else {
        digits_value(keys.drop_last())
    }
}

/// The fewest presses at the top of the chain that type `keys` on the numeric
/// keypad, with `depth` levels of directional keypads between the operator and
/// the one that steers the numeric keypad.
pub open spec fn chain_cost(keys: Seq<char>, depth: nat) -> nat {
    min_total(choices(numeric_pad(), keys), depth)
}

/// Why a string is not a code.
#[derive(Debug, Clone, Copy, PartialEq, Eq, Structural)]
pub enum CodeError {
    /// A symbol that is no key of the numeric keypad.
    UnknownKey,
    /// A numeric value that does not fit in a `u64`.
    ValueTooLarge,
}

/// A sequence of numeric-keypad keys to be typed.
pub struct Code {
    keys: Vec<char>,
    value: u64,
}

impl Code {
    /// The keys, in order.
    pub closed spec fn keys_view(&self) -> Seq<char> {
        self.keys@
    }

    /// The numeric value that the code carries.
    pub closed spec fn value_view(&self) -> nat {
        self.value as nat
    }

    pub open spec fn wf(&self) -> bool {
        &&& all_keys(numeric_pad(), self.keys_view())
        &&& self.value_view() == digits_value(self.keys_view())
    }

    /// A code from its keys; fails on a symbol that is no key of the numeric
    /// keypad, then on a numeric value too large for a `u64`.
    pub fn from_keys(keys: Vec<char>) -> (r: Result<Code, CodeError>)
        ensures
            !all_keys(numeric_pad(), keys@) ==> r == Err::<Code, CodeError>(CodeError::UnknownKey),
            all_keys(numeric_pad(), keys@) && digits_value(keys@) > u64::MAX ==> r == Err::<
                Code,
                CodeError,
            >(CodeError::ValueTooLarge),
            r is Ok <==> all_keys(numeric_pad(), keys@) && digits_value(keys@) <= u64::MAX,
            r matches Ok(c) ==> c.wf() && c.keys_view() == keys@,
    {
        let pad = Keypad::numeric();
        let mut i: usize = 0;
        while i < keys.len()
            invariant
                0 <= i <= keys@.len(),
                pad.wf(),
                pad@ == numeric_pad(),
                forall|k: int| 0 <= k < i ==> numeric_pad().has_key(#[trigger] keys@[k]),
            decreases keys.len() - i,
        {
            if pad.position_of(keys[i]).is_none() {
                return Err(CodeError::UnknownKey);
            }
            i = i + 1;
        }
        let mut value: u64 = 0;
        let mut j: usize = 0;
        assert(keys@.take(0) =~= Seq::<char>::empty());
        while j < keys.len()
            invariant
                0 <= j <= keys@.len(),
                all_keys(numeric_pad(), keys@),
                value as nat == digits_value(keys@.take(j as int)),
            decreases keys.len() - j,
        {
            let c = keys[j];
            proof {
                assert(keys@.take(j + 1).drop_last() =~= keys@.take(j as int));
                assert(keys@.take(j + 1).last() == c);
                lemma_digits_prefix(keys@, j + 1);
            }
            if '0' <= c && c <= '9' {
                let d = (c as u32 - '0' as u32) as u64;
                if value > (u64::MAX - d) / 10 {
                    proof {
                        lemma_digits_prefix(keys@, keys@.len() as int);
                        assert(keys@.take(keys@.len() as int) =~= keys@);
                        assert(10 * value + d > u64::MAX) by (nonlinear_arith)
                            requires
                                value > (u64::MAX - d) / 10,
                                d <= 9,
                        ;
                    }
                    return Err(CodeError::ValueTooLarge);
                }
                assert(10 * value + d <= u64::MAX) by (nonlinear_arith)
                    requires
                        value <= (u64::MAX - d) / 10,
                        d <= 9,
                ;
                value = 10 * value + d;
            }
            j = j + 1;
        }
        assert(keys@.take(keys@.len() as int) =~= keys@);
        Ok(Code { keys, value })
    }

    /// A code from its text, as `from_keys` does.
    pub fn new(text: &str) -> (r: Result<Code, CodeError>)
        ensures
            !all_keys(numeric_pad(), text@) ==> r == Err::<Code, CodeError>(CodeError::UnknownKey),
            all_keys(numeric_pad(), text@) && digits_value(text@) > u64::MAX ==> r == Err::<
                Code,
                CodeError,
            >(CodeError::ValueTooLarge),
            r is Ok <==> all_keys(numeric_pad(), text@) && digits_value(text@) <= u64::MAX,
            r matches Ok(c) ==> c.wf() && c.keys_view() == text@,
    {
        let n = text.unicode_len();
        let mut keys: Vec<char> = Vec::new();
        let mut i: usize = 0;
        while i < n
            invariant
                0 <= i <= n,
                n == text@.len(),
                keys@ == text@.take(i as int),
            decreases n - i,
        {
            keys.push(text.get_char(i));
            i = i + 1;
            assert(keys@ =~= text@.take(i as int));
        }
        assert(text@.take(n as int) =~= text@);
        Code::from_keys(keys)
    }

    /// The keys, in order.
    pub fn keys(&self) -> (r: &Vec<char>)
        ensures
            r@ == self.keys_view(),
    {
        &self.keys
    }

    /// The code's digits read as a decimal number.
    pub fn num_part(&self) -> (r: u64)
        requires
            self.wf(),
        ensures
            r == digits_value(self.keys_view()),
    {
        self.value
    }
}

/// Once the value of a prefix is too large, so is the value of the whole.
proof fn lemma_digits_prefix(keys: Seq<char>, j: int)
    requires
        0 <= j <= keys.len(),
    ensures
        digits_value(keys.take(j)) <= digits_value(keys),
    decreases keys.len() - j,
{
    if j < keys.len() {
        lemma_digits_prefix(keys, j + 1);
        assert(keys.take(j + 1).drop_last() =~= keys.take(j));
    } else {
        assert(keys.take(j) =~= keys);
    }
}

} // verus!
