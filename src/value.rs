use vstd::prelude::*;

use crate::address::{
    all_digits, decimal_digits, decimal_value, is_digit_char, lemma_decimal_value_mono,
    lemma_decimal_value_push, to_decimal_digits, MAX_COORD,
};
use crate::text::{chars_of, string_of};

verus! {

/// Why a raw attribute text could not be read as a typed value.
#[derive(Clone, Copy, Debug, PartialEq, Eq, Structural)]
pub enum ParseError {
    InvalidBoolean,
    InvalidInteger,
}

pub open spec fn text_true(s: Seq<char>) -> bool {
    s == seq!['1'] || s == seq!['t', 'r', 'u', 'e']
}

pub open spec fn text_false(s: Seq<char>) -> bool {
    s == seq!['0'] || s == seq!['f', 'a', 'l', 's', 'e']
}

/// A base-10 literal that fits in a `u32`.
pub open spec fn text_u32(s: Seq<char>) -> bool {
    s.len() > 0 && all_digits(s) && decimal_value(s) <= MAX_COORD
}

/// A boolean that is either unset (read as `false`, not written) or set.
#[derive(Clone, Copy, Debug, Default, PartialEq, Eq, Structural)]
pub struct BooleanValue {
    pub value: Option<bool>,
}

impl BooleanValue {
    pub fn new() -> (r: BooleanValue)
        ensures
            r.value is None,
    {
        BooleanValue { value: None }
    }

    /// The value, or `false` when unset.
    pub fn get_value(&self) -> (r: bool)
        ensures
            r == (self.value == Some(true)),
    {
        match self.value {
            Some(v) => v,
            None => false,
        }
    }

    pub fn set_value(&mut self, value: bool)
        ensures
            final(self).value == Some(value),
    {
        self.value = Some(value);
    }

    pub fn has_value(&self) -> (r: bool)
        ensures
            r == self.value is Some,
    {
        self.value.is_some()
    }

    /// Reads `1`/`true` or `0`/`false`; any other text leaves the value unset.
    pub fn set_value_string(&mut self, raw: &str) -> (r: Result<(), ParseError>)
        ensures
            text_true(raw@) ==> r is Ok && final(self).value == Some(true),
            text_false(raw@) ==> r is Ok && final(self).value == Some(false),
            !text_true(raw@) && !text_false(raw@) ==> r == Err::<(), ParseError>(
                ParseError::InvalidBoolean,
            ) && final(self).value is None,
    {
        let s = chars_of(raw);
        if (s.len() == 1 && s[0] == '1') || (s.len() == 4 && s[0] == 't' && s[1] == 'r' && s[2]
            == 'u' && s[3] == 'e') {
            assert(text_true(raw@)) by {
                if s.len() == 1 {
                    assert(s@ =~= seq!['1']);
                } else {
                    assert(s@ =~= seq!['t', 'r', 'u', 'e']);
                }
            }
            self.value = Some(true);
            Ok(())
        } else if (s.len() == 1 && s[0] == '0') || (s.len() == 5 && s[0] == 'f' && s[1] == 'a'
            && s[2] == 'l' && s[3] == 's' && s[4] == 'e') {
            assert(text_false(raw@)) by {
                if s.len() == 1 {
                    assert(s@ =~= seq!['0']);
                } else {
                    assert(s@ =~= seq!['f', 'a', 'l', 's', 'e']);
                }
            }
            self.value = Some(false);
            Ok(())
        } else {
            assert(!text_true(raw@) && !text_false(raw@)) by {
                if s@ == seq!['1'] || s@ == seq!['t', 'r', 'u', 'e'] || s@ == seq!['0'] || s@
                    == seq!['f', 'a', 'l', 's', 'e'] {
                    assert(s@.len() == s.len());
                    assert(s@[0] == s[0]);
                }
            }
            self.value = None;
            Err(ParseError::InvalidBoolean)
        }
    }

    /// `1` or `0`.
    pub fn get_value_string(&self) -> (r: String)
        ensures
            r@ == (if self.get_value_spec() { seq!['1'] } else { seq!['0'] }),
    {
        let mut v: Vec<char> = Vec::new();
        if self.get_value() {
            v.push('1');
        } else {
            v.push('0');
        }
        assert(v@ =~= (if self.get_value_spec() { seq!['1'] } else { seq!['0'] }));
        string_of(&v)
    }

    pub open spec fn get_value_spec(&self) -> bool {
        self.value == Some(true)
    }
}

/// Reads a base-10 literal that fits in a `u32`.
pub fn parse_u32(s: &Vec<char>) -> (r: Option<u32>)
    ensures
        r is Some <==> text_u32(s@),
        r matches Some(n) ==> n == decimal_value(s@),
{
    if s.len() == 0 {
        return None;
    }
    let mut i: usize = 0;
    let mut acc: u64 = 0;
    while i < s.len()
        invariant
            i <= s.len(),
            s.len() > 0,
            all_digits(s@.take(i as int)),
            acc == decimal_value(s@.take(i as int)),
            acc <= MAX_COORD,
        decreases s.len() - i,
    {
        if !is_digit_char(s[i]) {
            assert(!all_digits(s@));
            return None;
        }
        let ghost prev = s@.take(i as int);
        assert(s@.take(i + 1) =~= prev.push(s[i as int]));
        proof {
            lemma_decimal_value_push(prev, s[i as int]);
        }
        acc = acc * 10 + (s[i] as u64 - '0' as u64);
        i = i + 1;
        if acc > MAX_COORD as u64 {
            proof {
                if all_digits(s@) {
                    lemma_decimal_value_mono(s@, i as int);
                }
            }
            return None;
        }
    }
    assert(s@.take(i as int) =~= s@);
    Some(acc as u32)
}

/// An unsigned integer that is either unset (read as 0, not written) or set.
#[derive(Clone, Copy, Debug, Default, PartialEq, Eq, Structural)]
pub struct UInt32Value {
    pub value: Option<u32>,
}

impl UInt32Value {
    pub fn new() -> (r: UInt32Value)
        ensures
            r.value is None,
    {
        UInt32Value { value: None }
    }

    /// The value, or 0 when unset.
    pub fn get_value(&self) -> (r: u32)
        ensures
            r == match self.value {
                Some(v) => v,
                None => 0,
            },
    {
        match self.value {
            Some(v) => v,
            None => 0,
        }
    }

    pub fn set_value(&mut self, value: u32)
        ensures
            final(self).value == Some(value),
    {
        self.value = Some(value);
    }

    pub fn has_value(&self) -> (r: bool)
        ensures
            r == self.value is Some,
    {
        self.value.is_some()
    }

    /// Reads a base-10 literal; any other text leaves the value unset.
    pub fn set_value_string(&mut self, raw: &str) -> (r: Result<(), ParseError>)
        ensures
            text_u32(raw@) ==> r is Ok && final(self).value == Some(decimal_value(raw@) as u32),
            !text_u32(raw@) ==> r == Err::<(), ParseError>(ParseError::InvalidInteger)
                && final(self).value is None,
    {
        let s = chars_of(raw);
        match parse_u32(&s) {
            Some(n) => {
                self.value = Some(n);
                Ok(())
            },
            None => {
                self.value = None;
                Err(ParseError::InvalidInteger)
            },
        }
    }

    /// The value in base 10.
    pub fn get_value_string(&self) -> (r: String)
        ensures
            r@ == decimal_digits(self.get_value_spec() as nat),
    {
        let d = to_decimal_digits(self.get_value());
        string_of(&d)
    }

    pub open spec fn get_value_spec(&self) -> u32 {
        match self.value {
            Some(v) => v,
            None => 0,
        }
    }
}

/// A string that is either unset (read as empty, not written) or set.
#[derive(Clone, Debug, Default)]
pub struct StringValue {
    pub value: Option<String>,
}

impl StringValue {
    pub fn new() -> (r: StringValue)
        ensures
            r.value is None,
    {
        StringValue { value: None }
    }

    /// The value, or the empty string when unset.
    pub fn get_value(&self) -> (r: String)
        ensures
            r@ == self.get_value_spec(),
    {
        match &self.value {
            Some(v) => v.clone(),
            None => String::new(),
        }
    }

    pub open spec fn get_value_spec(&self) -> Seq<char> {
        match self.value {
            Some(v) => v@,
            None => seq![],
        }
    }

    pub fn set_value(&mut self, value: String)
        ensures
            final(self).value == Some(value),
    {
        self.value = Some(value);
    }

    pub fn has_value(&self) -> (r: bool)
        ensures
            r == self.value is Some,
    {
        self.value.is_some()
    }
}

} // verus!
