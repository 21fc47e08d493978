//! The decimal and address text that error messages are written with.
use vstd::prelude::*;
use vstd::string::StringExecFns;
use crate::types::{PeerIp, TransmissionID};

verus! {

/// The character of a decimal digit.
pub open spec fn digit_char(d: int) -> char {
    (48 + d) as char
}

/// The decimal form of a number, without leading zeros.
pub open spec fn decimal(n: nat) -> Seq<char>
    decreases n,
{
    if n < 10 {
        seq![digit_char(n as int)]
    } else {
        decimal(n / 10).push(digit_char((n % 10) as int))
    }
}

/// The text of a peer address: its four octets, with dots between them, a colon and the port.
pub open spec fn peer_ip_text(p: PeerIp) -> Seq<char> {
    decimal(p.ip as nat / 16777216) + "."@ + decimal((p.ip as nat / 65536) % 256) + "."@ + decimal(
        (p.ip as nat / 256) % 256,
    ) + "."@ + decimal(p.ip as nat % 256) + ":"@ + decimal(p.port as nat)
}

/// The one-character text of a decimal digit.
fn digit_str(d: u8) -> (r: &'static str)
    requires
        d < 10,
    ensures
        r@ == seq![digit_char(d as int)],
{
    if d == 0 {
        proof { reveal_strlit("0"); }
        "0"
    } else if d == 1 {
        proof { reveal_strlit("1"); }
        "1"
    } else if d == 2 {
        proof { reveal_strlit("2"); }
        "2"
    } else if d == 3 {
        proof { reveal_strlit("3"); }
        "3"
    } else if d == 4 {
        proof { reveal_strlit("4"); }
        "4"
    } else if d == 5 {
        proof { reveal_strlit("5"); }
        "5"
    } else if d == 6 {
        proof { reveal_strlit("6"); }
        "6"
    } else if d == 7 {
        proof { reveal_strlit("7"); }
        "7"
    } else if d == 8 {
        proof { reveal_strlit("8"); }
        "8"
    } else {
        proof { reveal_strlit("9"); }
        "9"
    }
}

/// Appends the decimal form of `n`.
pub fn push_decimal(s: &mut String, n: u128)
    ensures
        final(s)@ == old(s)@ + decimal(n as nat),
    decreases n,
{
    if n >= 10 {
        push_decimal(s, n / 10);
    }
    s.append(digit_str((n % 10) as u8));
    proof {
        if n < 10 {
            assert(decimal(n as nat) == seq![digit_char(n as int)]);
        }
    }
}

/// Appends the text of a peer address.
pub fn push_peer_ip(s: &mut String, p: PeerIp)
    ensures
        final(s)@ == old(s)@ + peer_ip_text(p),
{
    let ghost s0 = s@;
    push_decimal(s, (p.ip / 16777216) as u128);
    s.append(".");
    push_decimal(s, ((p.ip / 65536) % 256) as u128);
    s.append(".");
    push_decimal(s, ((p.ip / 256) % 256) as u128);
    s.append(".");
    push_decimal(s, (p.ip % 256) as u128);
    s.append(":");
    push_decimal(s, p.port as u128);
    assert(s@ =~= s0 + peer_ip_text(p));
}

/// The text of a transmission ID: its kind, then its ID and checksum.
pub open spec fn transmission_id_text(id: TransmissionID) -> Seq<char> {
    match id {
        TransmissionID::Ratification => "Ratification"@,
        TransmissionID::Solution(i, c) => "Solution '"@ + fmt_id_text(decimal(i as nat)) + "."@ + fmt_id_text(decimal(c as nat)) + "'"@,
        TransmissionID::Transaction(i, c) => "Transaction '"@ + fmt_id_text(decimal(i as nat)) + "."@ + fmt_id_text(decimal(c as nat)) + "'"@,
    }
}

/// Appends the text of a transmission ID.
pub fn push_transmission_id(s: &mut String, id: TransmissionID)
    ensures
        final(s)@ == old(s)@ + transmission_id_text(id),
{
    let ghost s0 = s@;
    match id {
        TransmissionID::Ratification => {
            s.append("Ratification");
        },
        TransmissionID::Solution(i, c) => {
            s.append("Solution '");
            push_fmt_id(s, i as u128);
            s.append(".");
            push_fmt_id(s, c);
            s.append("'");
        },
        TransmissionID::Transaction(i, c) => {
            s.append("Transaction '");
            push_fmt_id(s, i);
            s.append(".");
            push_fmt_id(s, c);
            s.append("'");
        },
    }
    assert(s@ =~= s0 + transmission_id_text(id));
}

/// The short form of an ID's text: its first 16 characters, followed by `..` where it is
/// longer.
pub open spec fn fmt_id_text(s: Seq<char>) -> Seq<char> {
    if s.len() > 16 {
        s.take(16) + ".."@
    } else {
        s
    }
}

/// The decimal digits of a number, most significant first.
fn decimal_digits(n: u128) -> (r: Vec<u8>)
    ensures
        forall|i: int| 0 <= i < r@.len() ==> r@[i] < 10,
        r@.map_values(|d: u8| digit_char(d as int)) == decimal(n as nat),
    decreases n,
{
    let mut v: Vec<u8> = if n >= 10 {
        decimal_digits(n / 10)
    } else {
        Vec::new()
    };
    let ghost v0 = v@;
    v.push((n % 10) as u8);
    proof {
        assert(v@.map_values(|d: u8| digit_char(d as int)) =~= v0.map_values(|d: u8| digit_char(d as int)).push(
            digit_char((n % 10) as int),
        ));
        if n < 10 {
            assert(v0.map_values(|d: u8| digit_char(d as int)) =~= Seq::<char>::empty());
            assert(decimal(n as nat) == seq![digit_char(n as int)]);
        }
    }
    v
}

/// Appends the short form of the decimal text of an ID (see `fmt_id_text`).
pub fn push_fmt_id(s: &mut String, n: u128)
    ensures
        final(s)@ == old(s)@ + fmt_id_text(decimal(n as nat)),
{
    let ghost s0 = s@;
    let ghost d = decimal(n as nat);
    let v = decimal_digits(n);
    let k: usize = if v.len() > 16 { 16 } else { v.len() };
    let mut i: usize = 0;
    while i < k
        invariant
            k <= v@.len(),
            i <= k,
            forall|j: int| 0 <= j < v@.len() ==> v@[j] < 10,
            v@.map_values(|dd: u8| digit_char(dd as int)) == d,
            s@ == s0 + d.take(i as int),
        decreases k - i,
    {
        s.append(digit_str(v[i]));
        proof {
            assert(d[i as int] == digit_char(v@[i as int] as int));
            assert(d.take(i + 1) =~= d.take(i as int).push(d[i as int]));
        }
        i = i + 1;
    }
    if v.len() > 16 {
        s.append("..");
        assert(s@ =~= s0 + fmt_id_text(d));
    } else {
        assert(d.take(k as int) =~= d);
        assert(s@ =~= s0 + fmt_id_text(d));
    }
}

/// The short form of an ID's decimal text, as logs and errors print it: its first 16
/// characters, followed by `..` where it is longer.
pub fn fmt_id(id: u128) -> (r: String)
    ensures
        r@ == fmt_id_text(decimal(id as nat)),
{
    let mut s = String::new();
    push_fmt_id(&mut s, id);
    s
}

} // verus!
