//! The names of the files of a database, built from its directory, the
//! kind of file and the file's number.

use vstd::prelude::*;
use vstd::string::*;

verus! {

/// The kinds of file that are named by a number.
#[derive(Debug, Clone, Copy, PartialEq, Eq, Structural)]
pub enum FileType {
    Log,
    Table,
}

impl FileType {
    /// The ending of the names of files of this kind.
    pub open spec fn suffix(self) -> Seq<char> {
        match self {
            FileType::Log => ".log"@,
            FileType::Table => ".ldb"@,
        }
    }
}

/// The character of a decimal digit.
pub open spec fn digit_char(d: int) -> char {
    if d == 0 {
        '0'
    } else if d == 1 {
        '1'
    } else if d == 2 {
        '2'
    } else if d == 3 {
        '3'
    } else if d == 4 {
        '4'
    } else if d == 5 {
        '5'
    } else if d == 6 {
        '6'
    } else if d == 7 {
        '7'
    } else if d == 8 {
        '8'
    } else {
        '9'
    }
}

/// 10 to the power `p`.
pub open spec fn pow10(p: nat) -> nat
    decreases p,
{
    if p == 0 {
        1
    } else {
        10 * pow10((p - 1) as nat)
    }
}

/// The least width from `w` up, and no more than 20, in which `n` can be
/// written in decimal digits.
pub open spec fn width_from(n: nat, w: nat) -> nat
    decreases 20 - w,
{
    if w >= 20 || n < pow10(w) {
        w
    } else {
        width_from(n, w + 1)
    }
}

/// The digit of `n` that counts `pow10(p)`.
pub open spec fn digit_at(n: nat, p: nat) -> char {
    digit_char(((n / pow10(p)) % 10) as int)
}

/// `n` in decimal digits, with zeros in front where it has fewer than six.
pub open spec fn numeral(n: nat) -> Seq<char> {
    let w = width_from(n, 6);
    Seq::new(w, |i: int| digit_at(n, (w - 1 - i) as nat))
}

/// The name of the file of kind `file_type` with number `number` in the
/// database `db_name`: the directory, a slash, the number in at least six
/// digits, and the kind's ending.
pub open spec fn file_name(db_name: Seq<char>, file_type: FileType, number: u64) -> Seq<char> {
    db_name + "/"@ + numeral(number as nat) + file_type.suffix()
}

proof fn lemma_pow10_values()
    ensures
        pow10(0) == 1,
        pow10(1) == 10,
        pow10(2) == 100,
        pow10(3) == 1_000,
        pow10(4) == 10_000,
        pow10(5) == 100_000,
        pow10(6) == 1_000_000,
        pow10(7) == 10_000_000,
        pow10(8) == 100_000_000,
        pow10(9) == 1_000_000_000,
        pow10(10) == 10_000_000_000,
        pow10(11) == 100_000_000_000,
        pow10(12) == 1_000_000_000_000,
        pow10(13) == 10_000_000_000_000,
        pow10(14) == 100_000_000_000_000,
        pow10(15) == 1_000_000_000_000_000,
        pow10(16) == 10_000_000_000_000_000,
        pow10(17) == 100_000_000_000_000_000,
        pow10(18) == 1_000_000_000_000_000_000,
        pow10(19) == 10_000_000_000_000_000_000,
        pow10(20) == 100_000_000_000_000_000_000,
{
    reveal_with_fuel(pow10, 22);
}

fn digit_str(d: u64) -> (s: &'static str)
    requires
        d < 10,
    ensures
        s@ == seq![digit_char(d as int)],
{
    proof {
        reveal_strlit("0");
        reveal_strlit("1");
        reveal_strlit("2");
        reveal_strlit("3");
        reveal_strlit("4");
        reveal_strlit("5");
        reveal_strlit("6");
        reveal_strlit("7");
        reveal_strlit("8");
        reveal_strlit("9");
    }
    let s = if d == 0 {
        "0"
    } else if d == 1 {
        "1"
    } else if d == 2 {
        "2"
    } else if d == 3 {
        "3"
    } else if d == 4 {
        "4"
    } else if d == 5 {
        "5"
    } else if d == 6 {
        "6"
    } else if d == 7 {
        "7"
    } else if d == 8 {
        "8"
    } else {
        "9"
    };
    assert(s@ =~= seq![digit_char(d as int)]);
    s
}

/// Appends `n` to `out` in decimal digits, at least six of them.
pub fn push_numeral(out: &mut String, n: u64)
    ensures
        final(out)@ == old(out)@ + numeral(n as nat),
{
    proof {
        lemma_pow10_values();
    }
    // the width, and the weight of the digit in front
    let mut w: usize = 6;
    let mut top: u128 = 100_000;
    while w < 20 && (n as u128) >= top * 10
        invariant
            6 <= w <= 20,
            top == pow10((w - 1) as nat),
            top <= 10_000_000_000_000_000_000,
            width_from(n as nat, w as nat) == width_from(n as nat, 6),
        decreases 20 - w,
    {
        proof {
            lemma_pow10_values();
            reveal_with_fuel(width_from, 2);
        }
        top = top * 10;
        w += 1;
    }
    proof {
        lemma_pow10_values();
        reveal_with_fuel(width_from, 2);
        assert(width_from(n as nat, 6) == w);
    }
    let mut i: usize = 0;
    let ghost whole = numeral(n as nat);
    assert(out@ =~= old(out)@ + whole.take(0));
    while i < w
        invariant
            i <= w,
            6 <= w <= 20,
            whole == numeral(n as nat),
            whole.len() == w,
            i < w ==> top == pow10((w - 1 - i) as nat),
            out@ == old(out)@ + whole.take(i as int),
        decreases w - i,
    {
        proof {
            lemma_pow10_values();
        }
        let d: u64 = ((n as u128 / top) % 10) as u64;
        out.append(digit_str(d));
        proof {
            assert(whole[i as int] == digit_at(n as nat, (w - 1 - i) as nat));
            assert(whole.take(i + 1) =~= whole.take(i as int) + seq![whole[i as int]]);
            assert(old(out)@ + whole.take(i as int) + seq![whole[i as int]] =~= old(out)@
                + whole.take(i + 1));
        }
        top = top / 10;
        i += 1;
    }
    assert(whole.take(w as int) =~= whole);
}

/// The name of the file of kind `file_type` with number `number` in the
/// database `db_name`.
pub fn generate_filename(db_name: &str, file_type: FileType, number: u64) -> (name: String)
    ensures
        name@ == file_name(db_name@, file_type, number),
{
    let mut name = String::from_str(db_name);
    name.append("/");
    push_numeral(&mut name, number);
    match file_type {
        FileType::Log => name.append(".log"),
        FileType::Table => name.append(".ldb"),
    }
    name
}

} // verus!
