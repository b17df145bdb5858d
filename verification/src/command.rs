//! A parsed request: a lower-cased name and its argument list.

use vstd::prelude::*;
use vstd::string::StrSliceExecFns;
use vstd::string::StringSliceAdditionalSpecFns;
use crate::float_text::lower;
use crate::float_text::lower_byte;
use crate::value::SpecValue;
use crate::value::Value;
use crate::value::view_list;
use crate::value::lemma_view_list;

verus! {

/// ASCII lower-casing of a whole byte string.
pub open spec fn lower_bytes(s: Seq<u8>) -> Seq<u8> {
    Seq::new(s.len(), |i: int| lower(s[i]))
}

/// Lower-cases a byte vector.
pub fn lower_vec(b: &[u8]) -> (r: Vec<u8>)
    ensures
        r@ == lower_bytes(b@),
{
    let mut r: Vec<u8> = Vec::new();
    let mut i: usize = 0;
    while i < b.len()
        invariant
            i <= b@.len(),
            r@ == lower_bytes(b@).take(i as int),
        decreases b@.len() - i,
    {
        let x = lower_byte(b[i]);
        r.push(x);
        i = i + 1;
        proof {
            assert(r@ =~= lower_bytes(b@).take(i as int));
        }
    }
    proof {
        assert(lower_bytes(b@).take(i as int) =~= lower_bytes(b@));
    }
    r
}

/// One request: the command name, canonicalised to lower case at
/// construction, and its ordered arguments.
#[derive(Debug, PartialEq, Eq)]
pub struct Command(pub Vec<u8>, pub Vec<Value>);

impl Command {
    /// A command with the given name and no arguments yet.
    pub fn new(name: &str) -> (r: Command)
        ensures
            r.0@ == lower_bytes(name.spec_bytes()),
            r.1@.len() == 0,
    {
        Command(lower_vec(name.as_bytes()), Vec::new())
    }

    /// A command built straight from wire bytes.
    pub fn from_wire(name: Vec<u8>, args: Vec<Value>) -> (r: Command)
        ensures
            r.0@ == lower_bytes(name@),
            r.1 == args,
    {
        Command(lower_vec(name.as_slice()), args)
    }

    /// Replaces the argument list.
    pub fn with_args(self, x: Vec<Value>) -> (r: Command)
        ensures
            r.0 == self.0,
            r.1 == x,
    {
        Command(self.0, x)
    }

    /// Appends one string argument.
    pub fn arg(self, x: &str) -> (r: Command)
        ensures
            r.0 == self.0,
            r.1@.len() == self.1@.len() + 1,
            view_list(r.1@) == view_list(self.1@).push(SpecValue::String(x.spec_bytes())),
    {
        let Command(name, mut args) = self;
        let ghost old_args = args@;
        args.push(Value::String(x.as_bytes_vec()));
        proof {
            lemma_view_list(old_args);
            lemma_view_list(args@);
            assert(args@.drop_last() =~= old_args);
            assert(view_list(args@) =~= view_list(old_args).push(
                SpecValue::String(x.spec_bytes()),
            ));
        }
        Command(name, args)
    }

    /// The lower-cased name.
    pub fn name(&self) -> (r: &Vec<u8>)
        ensures
            r == self.0,
    {
        &self.0
    }

    /// The arguments.
    pub fn args(&self) -> (r: &Vec<Value>)
        ensures
            r == self.1,
    {
        &self.1
    }

    /// The arguments, writable.
    pub fn args_mut(&mut self) -> (r: &mut Vec<Value>)
        ensures
            *r == old(self).1,
            final(self).1 == *final(r),
            final(self).0 == old(self).0,
    {
        &mut self.1
    }

    /// The whole request as a wire value: the name, then the arguments.
    pub fn into_vec(self) -> (r: Vec<Value>)
        ensures
            view_list(r@) == view_list(self.1@).insert(0, SpecValue::String(self.0@)),
    {
        let Command(name, mut args) = self;
        let ghost old_args = args@;
        args.insert(0, Value::String(name));
        proof {
            lemma_view_list(old_args);
            lemma_view_list(args@);
            assert forall|i: int| 0 <= i < args@.len() implies view_list(args@)[i] == view_list(
                old_args,
            ).insert(0, view_list(args@)[0])[i] by {
                if i > 0 {
                    assert(args@[i] == old_args[i - 1]);
                }
            }
            assert(view_list(args@) =~= view_list(old_args).insert(
                0,
                SpecValue::String(args@[0]->String_0@),
            ));
        }
        args
    }

    /// The name and the arguments, apart.
    pub fn split(self) -> (r: (Vec<u8>, Vec<Value>))
        ensures
            r.0 == self.0,
            r.1 == self.1,
    {
        let Command(name, args) = self;
        (name, args)
    }

    /// Removes and returns the first argument, or null when there is
    /// none.
    pub fn pop_front(&mut self) -> (r: Value)
        ensures
            old(self).1@.len() == 0 ==> r@ is Null && final(self).1 == old(self).1,
            old(self).1@.len() > 0 ==> r == old(self).1@[0] && final(self).1@ == old(
                self,
            ).1@.skip(1),
            final(self).0 == old(self).0,
    {
        if self.1.len() == 0 {
            Value::Null
        } else {
            let v = self.1.remove(0);
            proof {
                assert(self.1@ =~= old(self).1@.skip(1));
            }
            v
        }
    }
}

} // verus!
