use vstd::prelude::*;
use vstd::utf8::encode_utf8;
use crate::bytes::{decimal, push_all, push_decimal};

verus! {

/// A point in time: seconds since the Unix epoch, and the offset from UTC
/// (in seconds) at which it was recorded, less than a day either way.
pub struct Timestamp {
    seconds: i64,
    offset: i32,
}

impl Timestamp {
    pub closed spec fn seconds(&self) -> int {
        self.seconds as int
    }

    pub closed spec fn offset(&self) -> int {
        self.offset as int
    }

    #[verifier::type_invariant]
    spec fn inv(&self) -> bool {
        -86400 < self.offset < 86400
    }

    /// The time `seconds` after the epoch, at offset `offset` seconds east
    /// of UTC; `None` if the offset is a day or more.
    pub fn new(seconds: i64, offset: i32) -> (r: Option<Timestamp>)
        ensures
            r is Some <==> -86400 < offset < 86400,
            r matches Some(t) ==> t.seconds() == seconds && t.offset() == offset,
    {
        if -86400 < offset && offset < 86400 {
            Some(Timestamp { seconds, offset })
        } else {
            None
        }
    }

    /// The seconds since the epoch.
    pub fn epoch_seconds(&self) -> (r: i64)
        ensures
            r == self.seconds(),
    {
        self.seconds
    }

    /// The offset from UTC, in seconds.
    pub fn offset_seconds(&self) -> (r: i32)
        ensures
            r == self.offset(),
            -86400 < r < 86400,
    {
        proof {
            use_type_invariant(self);
        }
        self.offset
    }
}

/// An integer in decimal, with a leading `-` when negative.
pub open spec fn signed_decimal(n: int) -> Seq<u8> {
    if n < 0 {
        seq![45u8] + decimal((-n) as nat)
    } else {
        decimal(n as nat)
    }
}

/// A number below 100 as two decimal digits.
pub open spec fn two_digits(n: int) -> Seq<u8> {
    seq![(48 + n / 10) as u8, (48 + n % 10) as u8]
}

/// A UTC offset as `±HHMM`, its seconds dropped.
pub open spec fn offset_text(o: int) -> Seq<u8> {
    let a = if o < 0 {
        -o
    } else {
        o
    };
    seq![if o < 0 {
        45u8
    } else {
        43u8
    }] + two_digits(a / 3600) + two_digits((a % 3600) / 60)
}

/// A point in time as `"<epoch seconds> <±HHMM>"`.
pub open spec fn time_text(t: Timestamp) -> Seq<u8> {
    signed_decimal(t.seconds()) + seq![32u8] + offset_text(t.offset())
}

/// An identity line: `"<name> <<email>> <epoch seconds> <±HHMM>"`.
pub open spec fn ident_text(name: Seq<char>, email: Seq<char>, t: Timestamp) -> Seq<u8> {
    encode_utf8(name) + seq![32u8, 60] + encode_utf8(email) + seq![62u8, 32] + time_text(t)
}

fn push_two_digits(out: &mut Vec<u8>, n: u32)
    requires
        n < 100,
    ensures
        final(out)@ == old(out)@ + two_digits(n as int),
{
    out.push((48 + n / 10) as u8);
    out.push((48 + n % 10) as u8);
    assert(final(out)@ =~= old(out)@ + two_digits(n as int));
}

/// The author of a commit: a name, an email and a time.
pub struct Author {
    name: String,
    email: String,
    time: Timestamp,
}

impl Author {
    pub closed spec fn name(&self) -> Seq<char> {
        self.name@
    }

    pub closed spec fn email(&self) -> Seq<char> {
        self.email@
    }

    pub closed spec fn time(&self) -> Timestamp {
        self.time
    }

    pub fn new(name: String, email: String, time: Timestamp) -> (r: Author)
        ensures
            r.name() == name@,
            r.email() == email@,
            r.time() == time,
    {
        Author { name, email, time }
    }

    /// The identity line: `"<name> <<email>> <epoch seconds> <±HHMM>"`.
    pub fn to_bytes(&self) -> (r: Vec<u8>)
        ensures
            r@ == ident_text(self.name(), self.email(), self.time()),
    {
        let mut out: Vec<u8> = Vec::new();
        push_all(&mut out, self.name.as_str().as_bytes());
        push_all(&mut out, &[32u8, 60]);
        push_all(&mut out, self.email.as_str().as_bytes());
        push_all(&mut out, &[62u8, 32]);
        let s = self.time.epoch_seconds();
        let ghost before = out@;
        if s < 0 {
            out.push(45u8);
            let m: u64 = (-(s as i128)) as u64;
            push_decimal(&mut out, m);
            assert(out@ =~= before + signed_decimal(s as int));
        } else {
            push_decimal(&mut out, s as u64);
        }
        out.push(32u8);
        let o = self.time.offset_seconds();
        let a: u32 = if o < 0 {
            (-o) as u32
        } else {
            o as u32
        };
        let ghost before_offset = out@;
        out.push(if o < 0 {
            45u8
        } else {
            43u8
        });
        push_two_digits(&mut out, a / 3600);
        push_two_digits(&mut out, (a % 3600) / 60);
        assert(out@ =~= before_offset + offset_text(o as int));
        assert(out@ =~= ident_text(self.name(), self.email(), self.time()));
        out
    }
}

} // verus!
