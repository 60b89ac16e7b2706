use vstd::prelude::*;
use crate::bytes::dec_bytes;

verus! {

/// A decimal number padded to at least two digits, as a timezone offset's
/// hour and minute fields are written.
pub open spec fn two_dec(n: nat) -> Seq<u8> {
    if n < 10 {
        seq![48u8, (48 + n) as u8]
    } else {
        dec_bytes(n)
    }
}

/// A timestamp with its timezone offset, as recorded next to an actor.
#[derive(Clone, Copy, Debug, PartialEq, Eq, Structural)]
pub struct Time {
    /// Seconds since the Unix epoch.
    pub time: u32,
    /// Timezone offset in seconds, east of UTC positive.
    pub offset: i32,
}

impl Time {
    /// The magnitude of the timezone offset, in seconds.
    pub open spec fn offset_magnitude(self) -> nat {
        (if self.offset >= 0 {
            self.offset as int
        } else {
            -(self.offset as int)
        }) as nat
    }

    /// This time in the git serialization format: the epoch seconds in
    /// decimal, a space, the offset's sign, and its hours and minutes as two
    /// digits each.
    pub open spec fn spec_bytes(self) -> Seq<u8> {
        dec_bytes(self.time as nat) + seq![
            32u8,
            if self.offset < 0 {
                45u8
            } else {
                43u8
            },
        ] + two_dec(self.offset_magnitude() / 3600) + two_dec(
            (self.offset_magnitude() % 3600) / 60,
        )
    }

    /// Appends this time in the git serialization format to `out`.
    pub fn write_to(&self, out: &mut Vec<u8>)
        ensures
            final(out)@ == old(out)@ + self.spec_bytes(),
    {
        crate::bytes::push_dec(out, self.time);
        out.push(32u8);
        if self.offset < 0 {
            out.push(45u8);
        } else {
            out.push(43u8);
        }
        let mag: u32 = if self.offset >= 0 {
            self.offset as u32
        } else {
            (-(self.offset as i64)) as u32
        };
        proof {
            assert(mag == self.offset_magnitude());
        }
        push_two_dec(out, mag / 3600);
        push_two_dec(out, (mag % 3600) / 60);
        proof {
            assert(out@ =~= old(out)@ + self.spec_bytes());
        }
    }
}

fn push_two_dec(out: &mut Vec<u8>, n: u32)
    ensures
        final(out)@ == old(out)@ + two_dec(n as nat),
{
    if n < 10 {
        out.push(48u8);
        out.push(48 + (n as u8));
        proof {
            assert(out@ =~= old(out)@ + two_dec(n as nat));
        }
    } else {
        crate::bytes::push_dec(out, n);
    }
}

/// A token free of the characters that would break the actor line's
/// framing: `<`, `>` and the newline.
pub open spec fn token_legal(s: Seq<u8>) -> bool {
    forall|i: int| 0 <= i < s.len() ==> s[i] != 60 && s[i] != 62 && s[i] != 10
}

/// The error produced by [`Signature::write_to()`].
#[derive(Clone, Copy, Debug, PartialEq, Eq, Structural)]
pub enum Error {
    IllegalCharacter,
}

/// A mutable signature is created by an actor at a certain time.
///
/// Note that this is not a cryptographical signature.
#[derive(Clone, Debug, PartialEq, Eq)]
pub struct Signature {
    /// The actor's name.
    pub name: Vec<u8>,
    /// The actor's email.
    pub email: Vec<u8>,
    /// The time stamp at which the signature is performed.
    pub time: Time,
}

impl Signature {
    /// An owned signature built from borrowed name and email bytes, as when
    /// one is taken over from a parsed, borrowing representation.
    pub fn from_parts(name: &Vec<u8>, email: &Vec<u8>, time: Time) -> (s: Signature)
        ensures
            s.name@ == name@,
            s.email@ == email@,
            s.time == time,
    {
        Signature {
            name: crate::bytes::copy_range(name, 0, name.len()),
            email: crate::bytes::copy_range(email, 0, email.len()),
            time,
        }
    }

    /// This signature in the git serialization format for actors:
    /// `name <email> time offset`.
    pub open spec fn spec_bytes(self) -> Seq<u8> {
        self.name@ + seq![32u8, 60u8] + self.email@ + seq![62u8, 32u8] + self.time.spec_bytes()
    }

    /// Appends this signature in the git serialization format for actors to
    /// `out`; a name or email holding `<`, `>` or a newline is refused, and
    /// then nothing is written.
    pub fn write_to(&self, out: &mut Vec<u8>) -> (r: Result<(), Error>)
        ensures
            r is Ok <==> token_legal(self.name@) && token_legal(self.email@),
            r is Ok ==> final(out)@ == old(out)@ + self.spec_bytes(),
            r is Err ==> final(out)@ == old(out)@ && r == Err::<(), Error>(
                Error::IllegalCharacter,
            ),
    {
        match validated_token(&self.name) {
            Err(e) => {
                return Err(e);
            },
            Ok(_) => {},
        }
        match validated_token(&self.email) {
            Err(e) => {
                return Err(e);
            },
            Ok(_) => {},
        }
        crate::bytes::push_bytes(out, &self.name, 0, self.name.len());
        out.push(32u8);
        out.push(60u8);
        crate::bytes::push_bytes(out, &self.email, 0, self.email.len());
        out.push(62u8);
        out.push(32u8);
        self.time.write_to(out);
        proof {
            assert(self.name@.subrange(0, self.name@.len() as int) =~= self.name@);
            assert(self.email@.subrange(0, self.email@.len() as int) =~= self.email@);
            assert(out@ =~= old(out)@ + self.spec_bytes());
        }
        Ok(())
    }
}

/// Accepts a token exactly when it is free of `<`, `>` and the newline,
/// handing it back unchanged.
pub fn validated_token(name: &Vec<u8>) -> (r: Result<&Vec<u8>, Error>)
    ensures
        r is Ok <==> token_legal(name@),
        r matches Ok(v) ==> v@ == name@,
        r is Err ==> r == Err::<&Vec<u8>, Error>(Error::IllegalCharacter),
{
    let mut i: usize = 0;
    while i < name.len()
        invariant
            i <= name@.len(),
            forall|k: int| 0 <= k < i ==> name@[k] != 60 && name@[k] != 62 && name@[k] != 10,
        decreases name@.len() - i,
    {
        let b = name[i];
        if b == 60 || b == 62 || b == 10 {
            return Err(Error::IllegalCharacter);
        }
        i = i + 1;
    }
    Ok(name)
}

} // verus!
