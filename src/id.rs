use vstd::prelude::*;
use vstd::string::StringExecFns;

verus! {

/// The lower-case hexadecimal digit for a value below sixteen.
pub open spec fn hex_char(d: nat) -> char {
    if d < 10 {
        ((d + 48) as u8) as char
    } else {
        ((d + 87) as u8) as char
    }
}

/// The last `n` hexadecimal digits of `v`, most significant first.
pub open spec fn hex_digits(v: nat, n: nat) -> Seq<char>
    decreases n,
{
    if n == 0 {
        Seq::empty()
    } else {
        hex_digits(v / 16, (n - 1) as nat).push(hex_char(v % 16))
    }
}

/// The issue id made of 128 random-and-time bits: `pn-` and the eight hex
/// digits of the lowest 32 bits.
pub open spec fn id_text(bits: u128) -> Seq<char> {
    "pn-"@ + hex_digits((bits % 0x1_0000_0000) as nat, 8)
}

fn hex_str(d: u64) -> (r: &'static str)
    requires
        d < 16,
    ensures
        r@ == seq![hex_char(d as nat)],
{
    proof {
        reveal_strlit("0");
        reveal_strlit("1");
        reveal_strlit("2");
        reveal_strlit("3");
        reveal_strlit("4");
        reveal_strlit("5");
        reveal_strlit("6");
        reveal_strlit("7");
        reveal_strlit("8");
        reveal_strlit("9");
        reveal_strlit("a");
        reveal_strlit("b");
        reveal_strlit("c");
        reveal_strlit("d");
        reveal_strlit("e");
        reveal_strlit("f");
    }
    let r = if d == 0 { "0" } else if d == 1 { "1" } else if d == 2 { "2" } else if d == 3 { "3" } else if d == 4 { "4" } else if d == 5 { "5" } else if d == 6 { "6" } else if d == 7 { "7" } else if d == 8 { "8" } else if d == 9 { "9" } else if d == 10 { "a" } else if d == 11 { "b" } else if d == 12 { "c" } else if d == 13 { "d" } else if d == 14 { "e" } else { "f" };
    assert(r@ =~= seq![hex_char(d as nat)]);
    r
}

fn hex_of(v: u64, n: u64) -> (r: String)
    ensures
        r@ == hex_digits(v as nat, n as nat),
    decreases n,
{
    if n == 0 {
        String::new()
    } else {
        let head = hex_of(v / 16, n - 1);
        let r = head.concat(hex_str(v % 16));
        assert(r@ =~= hex_digits(v as nat, n as nat));
        r
    }
}

/// The issue id for the given bits.
pub fn id_from_bits(bits: u128) -> (r: String)
    ensures
        r@ == id_text(bits),
{
    let low = (bits % 0x1_0000_0000) as u64;
    String::from_str("pn-").concat(hex_of(low, 8).as_str())
}

/// Relies on `uuid::Uuid::now_v7` and `Uuid::as_u128`: a time-ordered UUID
/// whose low bits are random. Nothing is promised of the value.
#[verifier::external_body]
fn uuid_bits() -> (r: u128) {
    uuid::Uuid::now_v7().as_u128()
}

/// A fresh issue id: `pn-` and eight hex digits drawn at random.
pub fn generate_id() -> (r: String)
    ensures
        exists|bits: u128| r@ == id_text(bits),
{
    let bits = uuid_bits();
    id_from_bits(bits)
}

} // verus!
