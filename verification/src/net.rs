//! Naming the TCP endpoint of the external solver.

use vstd::prelude::*;

verus! {

/// A host name and port addressing the solver over TCP.
#[derive(Debug, Clone)]
pub struct TcpEndpoint {
    /// Host name or address, kept verbatim.
    pub host: String,
    /// TCP port.
    pub port: u16,
}

/// The character rendering one decimal digit.
pub open spec fn spec_digit_char(d: nat) -> char
    recommends
        d < 10,
{
    if d == 0 {
        '0'
    } else if d == 1 {
        '1'
    } else if d == 2 {
        '2'
    } else if d == 3 {
        '3'
    } else if d == 4 {
        '4'
    } else if d == 5 {
        '5'
    } else if d == 6 {
        '6'
    } else if d == 7 {
        '7'
    } else if d == 8 {
        '8'
    } else {
        '9'
    }
}

/// The decimal digits of a number, most significant first, with no leading
/// zeros except for zero itself.
pub open spec fn spec_decimal(n: nat) -> Seq<char>
    decreases n,
{
    if n < 10 {
        seq![spec_digit_char(n)]
    } else {
        spec_decimal(n / 10) + seq![spec_digit_char(n % 10)]
    }
}

/// Render one decimal digit.
fn digit_str(d: u16) -> (s: &'static str)
    requires
        d < 10,
    ensures
        s@ == seq![spec_digit_char(d as nat)],
{
    let s: &'static str = match d {
        0 => "0",
        1 => "1",
        2 => "2",
        3 => "3",
        4 => "4",
        5 => "5",
        6 => "6",
        7 => "7",
        8 => "8",
        _ => "9",
    };
    proof {
        reveal_strlit("0");
        reveal_strlit("1");
        reveal_strlit("2");
        reveal_strlit("3");
        reveal_strlit("4");
        reveal_strlit("5");
        reveal_strlit("6");
        reveal_strlit("7");
        reveal_strlit("8");
        reveal_strlit("9");
        assert(s@ =~= seq![spec_digit_char(d as nat)]);
    }
    s
}

/// Render a 16-bit number in decimal.
fn u16_decimal(v: u16) -> (s: String)
    ensures
        s@ == spec_decimal(v as nat),
    decreases v,
{
    if v < 10 {
        let d = digit_str(v);
        d.to_owned()
    } else {
        let mut s = u16_decimal(v / 10);
        let d = digit_str(v % 10);
        s.append(d);
        proof {
            assert(s@ =~= spec_decimal(v as nat));
        }
        s
    }
}

impl TcpEndpoint {
    /// Wrap a host name and port.
    pub fn new(host: String, port: u16) -> (e: TcpEndpoint)
        ensures
            e.host@ == host@,
            e.port == port,
    {
        TcpEndpoint { host, port }
    }

    /// The `host:port` rendering used to dial the solver.
    pub fn to_string(&self) -> (s: String)
        ensures
            s@ == self.host@ + ":"@ + spec_decimal(self.port as nat),
    {
        let mut s = self.host.clone();
        s.append(":");
        let digits = u16_decimal(self.port);
        s.append(digits.as_str());
        proof {
            assert(s@ =~= self.host@ + ":"@ + spec_decimal(self.port as nat));
        }
        s
    }
}

} // verus!
