use vstd::prelude::*;

verus! {

/// Bytes in one kilobyte (binary unit).
pub const KB: u64 = 1024;

/// Bytes in one megabyte (binary unit).
pub const MB: u64 = 1048576;

/// Bytes in one gigabyte (binary unit).
pub const GB: u64 = 1073741824;

/// The character of a decimal digit.
pub open spec fn digit_char(d: nat) -> char {
    if d == 0 { '0' }
    else if d == 1 { '1' }
    else if d == 2 { '2' }
    else if d == 3 { '3' }
    else if d == 4 { '4' }
    else if d == 5 { '5' }
    else if d == 6 { '6' }
    else if d == 7 { '7' }
    else if d == 8 { '8' }
    else { '9' }
}

/// The decimal notation of `n`, without leading zeros.
pub open spec fn decimal(n: nat) -> Seq<char>
    decreases n,
{
    if n < 10 {
        seq![digit_char(n)]
    } else {
        decimal(n / 10) + seq![digit_char(n % 10)]
    }
}

/// `n / unit` in hundredths, rounded to the nearest, ties to the even hundredth.
pub open spec fn hundredths(n: nat, unit: nat) -> nat
    recommends
        unit > 0,
{
    let h = n * 100 / unit;
    let r = n * 100 % unit;
    if 2 * r > unit || (2 * r == unit && h % 2 == 1) {
        h + 1
    } else {
        h
    }
}

/// `n / unit` written with exactly two decimal places.
pub open spec fn two_places(n: nat, unit: nat) -> Seq<char> {
    let h = hundredths(n, unit);
    decimal(h / 100) + seq!['.', digit_char((h % 100) / 10), digit_char(h % 10)]
}

/// The human-readable form of a byte count: the largest binary unit that the
/// count reaches, with two decimal places, or the plain count in bytes.
pub open spec fn size_text(size: u64) -> Seq<char> {
    if size >= GB {
        two_places(size as nat, GB as nat) + seq![' ', 'G', 'B']
    } else if size >= MB {
        two_places(size as nat, MB as nat) + seq![' ', 'M', 'B']
    } else if size >= KB {
        two_places(size as nat, KB as nat) + seq![' ', 'K', 'B']
    } else {
        decimal(size as nat) + seq![' ', 'B']
    }
}

fn digit_str(d: u128) -> (r: &'static str)
    requires
        d < 10,
    ensures
        r@ == seq![digit_char(d as nat)],
{
    proof {
        reveal_strlit("0");
        reveal_strlit("1");
        reveal_strlit("2");
        reveal_strlit("3");
        reveal_strlit("4");
        reveal_strlit("5");
        reveal_strlit("6");
        reveal_strlit("7");
        reveal_strlit("8");
        reveal_strlit("9");
    }
    if d == 0 { "0" }
    else if d == 1 { "1" }
    else if d == 2 { "2" }
    else if d == 3 { "3" }
    else if d == 4 { "4" }
    else if d == 5 { "5" }
    else if d == 6 { "6" }
    else if d == 7 { "7" }
    else if d == 8 { "8" }
    else { "9" }
}

/// Writes `n` in decimal.
pub fn decimal_string(n: u128) -> (r: String)
    ensures
        r@ == decimal(n as nat),
    decreases n,
{
    if n < 10 {
        String::from_str(digit_str(n))
    } else {
        let mut s = decimal_string(n / 10);
        s.append(digit_str(n % 10));
        s
    }
}

fn two_places_string(n: u64, unit: u64) -> (r: String)
    requires
        unit > 0,
    ensures
        r@ == two_places(n as nat, unit as nat),
{
    let scaled: u128 = (n as u128) * 100;
    let h0: u128 = scaled / (unit as u128);
    let rem: u128 = scaled % (unit as u128);
    let h: u128 = if 2 * rem > unit as u128 || (2 * rem == unit as u128 && h0 % 2 == 1) {
        h0 + 1
    } else {
        h0
    };
    assert(h == hundredths(n as nat, unit as nat));
    let mut s = decimal_string(h / 100);
    s.append(".");
    s.append(digit_str((h % 100) / 10));
    s.append(digit_str(h % 10));
    proof {
        reveal_strlit(".");
    }
    assert(s@ =~= two_places(n as nat, unit as nat));
    s
}

/// Renders a byte count for display: "1023 B", "1.00 KB", "1.50 MB", "2.25 GB".
pub fn format_size(size: u64) -> (r: String)
    ensures
        r@ == size_text(size),
{
    proof {
        reveal_strlit(" GB");
        reveal_strlit(" MB");
        reveal_strlit(" KB");
        reveal_strlit(" B");
    }
    if size >= GB {
        let mut s = two_places_string(size, GB);
        s.append(" GB");
        assert(s@ =~= size_text(size));
        s
    } else if size >= MB {
        let mut s = two_places_string(size, MB);
        s.append(" MB");
        assert(s@ =~= size_text(size));
        s
    } else if size >= KB {
        let mut s = two_places_string(size, KB);
        s.append(" KB");
        assert(s@ =~= size_text(size));
        s
    } else {
        let mut s = decimal_string(size as u128);
        s.append(" B");
        assert(s@ =~= size_text(size));
        s
    }
}

} // verus!
