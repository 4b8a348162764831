//! Ordering of names, as `String`'s own `Ord` orders them.
//!
//! `String` compares its UTF-8 bytes lexicographically, and UTF-8 keeps the
//! order of code points, so two names compare as their sequences of chars
//! compare, char by char by code point.
use vstd::prelude::*;

verus! {

/// Lexicographic "strictly less" on sequences of chars, by code point.
pub open spec fn name_lt(a: Seq<char>, b: Seq<char>) -> bool
    decreases a.len(),
{
    if a.len() == 0 {
        b.len() > 0
    } else if b.len() == 0 {
        false
    } else if a[0] != b[0] {
        (a[0] as int) < (b[0] as int)
    } else {
        name_lt(a.drop_first(), b.drop_first())
    }
}

/// No name is less than itself.
pub proof fn lemma_name_lt_irreflexive(a: Seq<char>)
    ensures
        !name_lt(a, a),
    decreases a.len(),
{
    if a.len() > 0 {
        lemma_name_lt_irreflexive(a.drop_first());
    }
}

/// `name_lt` is transitive.
pub proof fn lemma_name_lt_transitive(a: Seq<char>, b: Seq<char>, c: Seq<char>)
    requires
        name_lt(a, b),
        name_lt(b, c),
    ensures
        name_lt(a, c),
    decreases a.len(),
{
    if a.len() > 0 && b.len() > 0 && c.len() > 0 {
        if a[0] == b[0] && b[0] == c[0] {
            lemma_name_lt_transitive(a.drop_first(), b.drop_first(), c.drop_first());
        }
    }
}

/// Two different names are ordered one way or the other.
pub proof fn lemma_name_lt_total(a: Seq<char>, b: Seq<char>)
    requires
        a != b,
    ensures
        name_lt(a, b) || name_lt(b, a),
    decreases a.len(),
{
    if a.len() > 0 && b.len() > 0 {
        if a[0] == b[0] {
            if a.drop_first() == b.drop_first() {
                assert(a =~= seq![a[0]] + a.drop_first());
                assert(b =~= seq![b[0]] + b.drop_first());
            }
            lemma_name_lt_total(a.drop_first(), b.drop_first());
        }
    } else if a.len() == 0 && b.len() == 0 {
        assert(a =~= b);
    }
}

/// Whether `a` sorts strictly before `b`, as `a.cmp(b) == Less` decides.
pub fn name_less(a: &String, b: &String) -> (r: bool)
    ensures
        r == name_lt(a@, b@),
{
    let sa = a.as_str();
    let sb = b.as_str();
    let la = sa.unicode_len();
    let lb = sb.unicode_len();
    let mut i: usize = 0;
    assert(a@.skip(0) =~= a@);
    assert(b@.skip(0) =~= b@);
    while i < la && i < lb
        invariant
            sa@ == a@,
            sb@ == b@,
            la == a@.len(),
            lb == b@.len(),
            i <= la,
            i <= lb,
            name_lt(a@, b@) == name_lt(a@.skip(i as int), b@.skip(i as int)),
        decreases la - i,
    {
        let ca = sa.get_char(i);
        let cb = sb.get_char(i);
        assert(a@.skip(i as int)[0] == ca);
        assert(b@.skip(i as int)[0] == cb);
        if ca != cb {
            return (ca as u32) < (cb as u32);
        }
        assert(a@.skip(i as int).drop_first() =~= a@.skip(i + 1));
        assert(b@.skip(i as int).drop_first() =~= b@.skip(i + 1));
        i = i + 1;
    }
    i == la && i < lb
}

/// The decimal digit for `d`, for `d` below ten.
pub open spec fn digit_char(d: nat) -> char {
    if d == 0 {
        '0'
    } else if d == 1 {
        '1'
    } else if d == 2 {
        '2'
    } else if d == 3 {
        '3'
    } else if d == 4 {
        '4'
    } else if d == 5 {
        '5'
    } else if d == 6 {
        '6'
    } else if d == 7 {
        '7'
    } else if d == 8 {
        '8'
    } else {
        '9'
    }
}

/// `n` written in decimal, without leading zeros, as `Display` writes it.
pub open spec fn decimal_digits(n: nat) -> Seq<char>
    decreases n,
{
    if n < 10 {
        seq![digit_char(n)]
    } else {
        decimal_digits(n / 10).push(digit_char(n % 10))
    }
}

/// The value of a decimal digit.
pub open spec fn digit_value(c: char) -> nat {
    if c == '1' {
        1
    } else if c == '2' {
        2
    } else if c == '3' {
        3
    } else if c == '4' {
        4
    } else if c == '5' {
        5
    } else if c == '6' {
        6
    } else if c == '7' {
        7
    } else if c == '8' {
        8
    } else if c == '9' {
        9
    } else {
        0
    }
}

/// The number that a run of decimal digits reads as.
pub open spec fn decimal_value(s: Seq<char>) -> nat
    decreases s.len(),
{
    if s.len() == 0 {
        0
    } else {
        decimal_value(s.drop_last()) * 10 + digit_value(s.last())
    }
}

/// The decimal text of `n` reads back as `n`, and starts with a zero only
/// where `n` is zero.
pub proof fn lemma_decimal_digits_read_back(n: nat)
    ensures
        decimal_value(decimal_digits(n)) == n,
        decimal_digits(n).len() > 0,
        decimal_digits(n)[0] == '0' ==> n == 0,
    decreases n,
{
    if n >= 10 {
        lemma_decimal_digits_read_back(n / 10);
        let d = decimal_digits(n);
        assert(d.drop_last() =~= decimal_digits(n / 10));
        assert(d[0] == decimal_digits(n / 10)[0]);
        assert(d.last() == digit_char(n % 10));
        assert(digit_value(digit_char(n % 10)) == n % 10);
        assert(n == (n / 10) * 10 + n % 10);
        assert(decimal_value(d) == decimal_value(d.drop_last()) * 10 + digit_value(d.last()));
    } else {
        let d = seq![digit_char(n)];
        assert(d.drop_last() =~= Seq::<char>::empty());
        assert(decimal_value(d.drop_last()) == 0);
        assert(digit_value(digit_char(n)) == n);
        assert(decimal_value(d) == decimal_value(d.drop_last()) * 10 + digit_value(d.last()));
    }
}

fn digit_str(d: u64) -> (s: &'static str)
    requires
        d < 10,
    ensures
        s@ == seq![digit_char(d as nat)],
{
    let s = if d == 0 {
        "0"
    } else if d == 1 {
        "1"
    } else if d == 2 {
        "2"
    } else if d == 3 {
        "3"
    } else if d == 4 {
        "4"
    } else if d == 5 {
        "5"
    } else if d == 6 {
        "6"
    } else if d == 7 {
        "7"
    } else if d == 8 {
        "8"
    } else {
        "9"
    };
    proof {
        reveal_strlit("0");
        reveal_strlit("1");
        reveal_strlit("2");
        reveal_strlit("3");
        reveal_strlit("4");
        reveal_strlit("5");
        reveal_strlit("6");
        reveal_strlit("7");
        reveal_strlit("8");
        reveal_strlit("9");
    }
    assert(s@ =~= seq![digit_char(d as nat)]);
    s
}

/// `n` in decimal.
pub fn decimal(n: u64) -> (s: String)
    ensures
        s@ == decimal_digits(n as nat),
    decreases n,
{
    if n < 10 {
        String::from_str(digit_str(n))
    } else {
        let mut s = decimal(n / 10);
        s.append(digit_str(n % 10));
        s
    }
}

/// The question asked before a bigfile is loaded. `data` is the name and
/// byte size of its data file where its size could be read.
pub open spec fn load_prompt_text(data: Option<(Seq<char>, u64)>) -> Seq<char> {
    match data {
        Some((name, len)) => name + " is "@ + decimal_digits((len / 1048576) as nat)
            + " MB in size.\nDo you want to load the entire file into memory?\nPressing \"No\" will read data from disk as needed."@,
        None => "Do you want to load the entire file into memory?\n                    Pressing \"No\" will read data from disk as needed."@,
    }
}

/// The size in the question reads back as the data file's whole length in
/// mebibytes, for every length a `u64` holds, and has no leading zero.
pub proof fn lemma_load_prompt_size(name: Seq<char>, len: u64)
    ensures
        exists|digits: Seq<char>|
            load_prompt_text(Some((name, len))) == name + " is "@ + digits
                + " MB in size.\nDo you want to load the entire file into memory?\nPressing \"No\" will read data from disk as needed."@
                && #[trigger] decimal_value(digits) == len / 1048576 && digits.len() > 0 && (digits[0]
                == '0' ==> len < 1048576),
{
    let digits = decimal_digits((len / 1048576) as nat);
    lemma_decimal_digits_read_back((len / 1048576) as nat);
    assert(decimal_value(digits) == len / 1048576);
}

/// The question asked before a bigfile is loaded, naming the data file and
/// its size in whole mebibytes where its size is known.
pub fn load_prompt(data: Option<(String, u64)>) -> (s: String)
    ensures
        s@ == load_prompt_text(
            match data {
                Some((name, len)) => Some((name@, len)),
                None => None,
            },
        ),
        data matches Some((name, len)) ==> exists|digits: Seq<char>|
            s@ == name@ + " is "@ + digits
                + " MB in size.\nDo you want to load the entire file into memory?\nPressing \"No\" will read data from disk as needed."@
                && #[trigger] decimal_value(digits) == len / 1048576,
{
    match data {
        Some((name, len)) => {
            proof {
                lemma_load_prompt_size(name@, len);
            }
            let mb = len / 1024 / 1024;
            assert(mb == len / 1048576) by {
                vstd::arithmetic::div_mod::lemma_div_denominator(len as int, 1024, 1024);
            }
            let mut s = name;
            s.append(" is ");
            s.append(decimal(mb).as_str());
            s.append(
                " MB in size.\nDo you want to load the entire file into memory?\nPressing \"No\" will read data from disk as needed.",
            );
            s
        },
        None => String::from_str(
            "Do you want to load the entire file into memory?\n                    Pressing \"No\" will read data from disk as needed.",
        ),
    }
}

/// The message shown once a whole bigfile has been extracted.
pub fn extracted_message(count: usize) -> (s: String)
    ensures
        s@ == "Finished extracting "@ + decimal_digits(count as nat) + " files"@,
{
    let mut s = String::from_str("Finished extracting ");
    s.append(decimal(count as u64).as_str());
    s.append(" files");
    s
}

/// The status line: the three file names of the loaded bigfile.
pub fn status_line(bfn: &String, bfdb: &String, bfdata: &String) -> (s: String)
    ensures
        s@ == bfn@ + " \u{2022} "@ + bfdb@ + " \u{2022} "@ + bfdata@,
{
    let mut s = String::from_str(bfn.as_str());
    s.append(" \u{2022} ");
    s.append(bfdb.as_str());
    s.append(" \u{2022} ");
    s.append(bfdata.as_str());
    s
}

} // verus!
