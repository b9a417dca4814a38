use vstd::prelude::*;

verus! {

/// The character for one decimal digit.
pub open spec fn digit_char(d: int) -> char {
    if d == 0 {
        '0'
    } else if d == 1 {
        '1'
    } else if d == 2 {
        '2'
    } else if d == 3 {
        '3'
    } else if d == 4 {
        '4'
    } else if d == 5 {
        '5'
    } else if d == 6 {
        '6'
    } else if d == 7 {
        '7'
    } else if d == 8 {
        '8'
    } else {
        '9'
    }
}

/// The decimal rendering of a non-negative integer, most significant
/// digit first, with no leading zeros (zero itself renders as "0").
pub open spec fn dec_str(n: int) -> Seq<char>
    recommends
        n >= 0,
    decreases n,
{
    if n < 10 {
        seq![digit_char(n)]
    } else {
        dec_str(n / 10).push(digit_char(n % 10))
    }
}

/// The one-character string for a decimal digit.
fn exec_digit_str(d: u64) -> (r: &'static str)
    requires
        d < 10,
    ensures
        r@ =~= seq![digit_char(d as int)],
{
    proof {
        reveal_strlit("0");
        reveal_strlit("1");
        reveal_strlit("2");
        reveal_strlit("3");
        reveal_strlit("4");
        reveal_strlit("5");
        reveal_strlit("6");
        reveal_strlit("7");
        reveal_strlit("8");
        reveal_strlit("9");
    }
    if d == 0 {
        "0"
    } else if d == 1 {
        "1"
    } else if d == 2 {
        "2"
    } else if d == 3 {
        "3"
    } else if d == 4 {
        "4"
    } else if d == 5 {
        "5"
    } else if d == 6 {
        "6"
    } else if d == 7 {
        "7"
    } else if d == 8 {
        "8"
    } else {
        "9"
    }
}

/// Renders a machine integer in decimal.
pub fn u64_to_dec_string(n: u64) -> (r: String)
    ensures
        r@ == dec_str(n as int),
{
    let mut digits: Vec<u64> = Vec::new();
    let mut m: u64 = n;
    while m >= 10
        invariant
            dec_str(n as int) =~= dec_str(m as int)
                + digits@.map_values(|d: u64| digit_char(d as int)).reverse(),
            forall|k: int| 0 <= k < digits@.len() ==> digits@[k] < 10,
        decreases m,
    {
        let ghost before = digits@;
        digits.push(m % 10);
        proof {
            assert(digits@.map_values(|d: u64| digit_char(d as int)).reverse() =~= seq![
                digit_char((m as int) % 10),
            ] + before.map_values(|d: u64| digit_char(d as int)).reverse());
        }
        m = m / 10;
    }
    let ghost before = digits@;
    digits.push(m);
    proof {
        assert(digits@.map_values(|d: u64| digit_char(d as int)).reverse() =~= seq![
            digit_char(m as int),
        ] + before.map_values(|d: u64| digit_char(d as int)).reverse());
        assert(dec_str(n as int) =~= digits@.map_values(|d: u64| digit_char(d as int)).reverse());
    }
    let ghost full = dec_str(n as int);
    let ghost mapped = digits@.map_values(|d: u64| digit_char(d as int));
    let mut r = String::new();
    let mut i: usize = digits.len();
    while i > 0
        invariant
            i <= digits@.len(),
            mapped == digits@.map_values(|d: u64| digit_char(d as int)),
            full == mapped.reverse(),
            forall|k: int| 0 <= k < digits@.len() ==> digits@[k] < 10,
            r@ =~= full.take(digits@.len() - i),
        decreases i,
    {
        i -= 1;
        r.append(exec_digit_str(digits[i]));
        proof {
            assert(full.take(digits@.len() - i) =~= full.take(digits@.len() - (i + 1)).push(
                mapped[i as int],
            ));
        }
    }
    assert(r@ =~= full);
    r
}

} // verus!
