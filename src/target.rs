//! The variables that flags are bound to, and how a converter fills them.
use vstd::prelude::*;
use vstd::string::*;
use crate::convert::{
    bool_of, char_of, i32_of, i64_of, parse_bool, parse_char, parse_i32, parse_i64, parse_u32,
    parse_u64, parse_usize, u32_of, u64_of, usize_of,
};

verus! {

/// A converter's failure.
#[derive(Debug)]
pub enum ArgError {
    /// A value token was there but did not convert; holds the target's type label.
    Unparsable(String),
    /// The converter needed a value token and none was left.
    OutOfArgs,
}

/// The current value of a bound variable, together with its kind.
pub enum Slot {
    Flag(bool),
    Bool(bool),
    Usize(usize),
    I64(i64),
    U32(u32),
    U64(u64),
    I32(i32),
    Char(char),
    Text(Seq<char>),
}

/// A caller-owned variable that a flag writes to. `Flag` is a presence flag:
/// it takes no value token and sets its variable to `true`.
pub enum Target<'a> {
    Flag(&'a mut bool),
    Bool(&'a mut bool),
    Usize(&'a mut usize),
    I64(&'a mut i64),
    U32(&'a mut u32),
    U64(&'a mut u64),
    I32(&'a mut i32),
    Char(&'a mut char),
    Text(&'a mut String),
}

impl<'a> View for Target<'a> {
    type V = Slot;

    open spec fn view(&self) -> Slot {
        match self {
            Target::Flag(r) => Slot::Flag(**r),
            Target::Bool(r) => Slot::Bool(**r),
            Target::Usize(r) => Slot::Usize(**r),
            Target::I64(r) => Slot::I64(**r),
            Target::U32(r) => Slot::U32(**r),
            Target::U64(r) => Slot::U64(**r),
            Target::I32(r) => Slot::I32(**r),
            Target::Char(r) => Slot::Char(**r),
            Target::Text(r) => Slot::Text((**r)@),
        }
    }
}

/// What a converter does with the value tokens from position `pos` on.
pub enum Fill {
    /// It succeeded; the cursor now stands at the given position.
    Took(nat),
    OutOfArgs,
    Unparsable,
}

impl Slot {
    /// The type label shown in the usage text and in conversion errors.
    pub open spec fn label(self) -> Seq<char> {
        match self {
            Slot::Flag(_) => "flag"@,
            Slot::Bool(_) => "bool"@,
            Slot::Usize(_) => "usize"@,
            Slot::I64(_) => "i64"@,
            Slot::U32(_) => "u32"@,
            Slot::U64(_) => "u64"@,
            Slot::I32(_) => "i32"@,
            Slot::Char(_) => "char"@,
            Slot::Text(_) => "String"@,
        }
    }

    /// The value of the same kind that `text` denotes, if any.
    pub open spec fn read(self, text: Seq<char>) -> Option<Slot> {
        match self {
            Slot::Flag(_) => Some(Slot::Flag(true)),
            Slot::Bool(_) => match bool_of(text) {
                Some(b) => Some(Slot::Bool(b)),
                None => None,
            },
            Slot::Usize(_) => match usize_of(text) {
                Some(v) => Some(Slot::Usize(v)),
                None => None,
            },
            Slot::I64(_) => match i64_of(text) {
                Some(v) => Some(Slot::I64(v)),
                None => None,
            },
            Slot::U32(_) => match u32_of(text) {
                Some(v) => Some(Slot::U32(v)),
                None => None,
            },
            Slot::U64(_) => match u64_of(text) {
                Some(v) => Some(Slot::U64(v)),
                None => None,
            },
            Slot::I32(_) => match i32_of(text) {
                Some(v) => Some(Slot::I32(v)),
                None => None,
            },
            Slot::Char(_) => match char_of(text) {
                Some(v) => Some(Slot::Char(v)),
                None => None,
            },
            Slot::Text(_) => Some(Slot::Text(text)),
        }
    }

    /// One converter step: a presence flag is set and consumes nothing; any other
    /// kind consumes the token at `pos` and converts it.
    pub open spec fn fill(self, vals: Seq<Seq<char>>, pos: nat) -> (Slot, Fill) {
        if self is Flag {
            (Slot::Flag(true), Fill::Took(pos))
        } else if pos >= vals.len() {
            (self, Fill::OutOfArgs)
        } else {
            match self.read(vals[pos as int]) {
                Some(s) => (s, Fill::Took(pos + 1)),
                None => (self, Fill::Unparsable),
            }
        }
    }
}

pub open spec fn texts(v: Seq<&str>) -> Seq<Seq<char>> {
    v.map_values(|s: &str| s@)
}

impl<'a> Target<'a> {
    pub fn type_label(&self) -> (r: &'static str)
        ensures
            r@ == self@.label(),
    {
        match self {
            Target::Flag(_) => "flag",
            Target::Bool(_) => "bool",
            Target::Usize(_) => "usize",
            Target::I64(_) => "i64",
            Target::U32(_) => "u32",
            Target::U64(_) => "u64",
            Target::I32(_) => "i32",
            Target::Char(_) => "char",
            Target::Text(_) => "String",
        }
    }

    /// Runs the converter on the value tokens from `pos` on. The variable that
    /// the target refers to stays the same; only its value changes.
    pub fn fill(&mut self, values: &Vec<&str>, pos: usize) -> (r: Result<usize, ArgError>)
        requires
            pos <= values@.len(),
        ensures
            final(self)@ == old(self)@.fill(texts(values@), pos as nat).0,
            match old(self)@.fill(texts(values@), pos as nat).1 {
                Fill::Took(p) => r == Ok::<usize, ArgError>(p as usize),
                Fill::OutOfArgs => r == Err::<usize, ArgError>(ArgError::OutOfArgs),
                Fill::Unparsable => r is Err && r->Err_0 is Unparsable && r->Err_0->Unparsable_0@
                    == old(self)@.label(),
            },
            match (*old(self), *final(self)) {
                (Target::Flag(a), Target::Flag(b)) => *final(a) == *final(b),
                (Target::Bool(a), Target::Bool(b)) => *final(a) == *final(b),
                (Target::Usize(a), Target::Usize(b)) => *final(a) == *final(b),
                (Target::I64(a), Target::I64(b)) => *final(a) == *final(b),
                (Target::U32(a), Target::U32(b)) => *final(a) == *final(b),
                (Target::U64(a), Target::U64(b)) => *final(a) == *final(b),
                (Target::I32(a), Target::I32(b)) => *final(a) == *final(b),
                (Target::Char(a), Target::Char(b)) => *final(a) == *final(b),
                (Target::Text(a), Target::Text(b)) => *final(a) == *final(b),
                _ => false,
            },
    {
        if let Target::Flag(r) = self {
            **r = true;
            return Ok(pos);
        }
        if pos >= values.len() {
            return Err(ArgError::OutOfArgs);
        }
        let item: &str = values[pos];
        let converted = match self {
            Target::Flag(_) => true,
            Target::Bool(r) => match parse_bool(item) {
                Some(v) => { **r = v; true },
                None => false,
            },
            Target::Usize(r) => match parse_usize(item) {
                Some(v) => { **r = v; true },
                None => false,
            },
            Target::I64(r) => match parse_i64(item) {
                Some(v) => { **r = v; true },
                None => false,
            },
            Target::U32(r) => match parse_u32(item) {
                Some(v) => { **r = v; true },
                None => false,
            },
            Target::U64(r) => match parse_u64(item) {
                Some(v) => { **r = v; true },
                None => false,
            },
            Target::I32(r) => match parse_i32(item) {
                Some(v) => { **r = v; true },
                None => false,
            },
            Target::Char(r) => match parse_char(item) {
                Some(v) => { **r = v; true },
                None => false,
            },
            Target::Text(r) => {
                **r = item.to_owned();
                true
            },
        };
        if converted {
            Ok(pos + 1)
        } else {
            Err(ArgError::Unparsable(self.type_label().to_owned()))
        }
    }
}

} // verus!
