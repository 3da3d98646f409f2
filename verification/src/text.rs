//! Text the engine prints: decimal and hexadecimal numerals, padding, repetition.
use vstd::prelude::*;
use vstd::string::*;

verus! {

/// The numeral of one digit, `0` to `9` and then `a` to `f`.
pub open spec fn digit(d: nat) -> char {
    if d < 10 {
        (48 + d) as char
    } else {
        (87 + d) as char
    }
}

/// `n` in decimal, without leading zeros.
pub open spec fn dec(n: nat) -> Seq<char>
    decreases n,
{
    if n < 10 {
        seq![digit(n)]
    } else {
        dec(n / 10).push(digit(n % 10))
    }
}

/// `n` in decimal with its sign.
pub open spec fn signed_dec(n: int) -> Seq<char> {
    if n < 0 {
        seq!['-'] + dec((0 - n) as nat)
    } else {
        dec(n as nat)
    }
}

/// `bytes` in hexadecimal, two numerals per byte.
pub open spec fn hex(bytes: Seq<u8>) -> Seq<char>
    decreases bytes.len(),
{
    if bytes.len() == 0 {
        Seq::<char>::empty()
    } else {
        hex(bytes.drop_last()).push(digit((bytes.last() / 16) as nat)).push(
            digit((bytes.last() % 16) as nat),
        )
    }
}

/// `n` spaces.
pub open spec fn spaces(n: nat) -> Seq<char> {
    Seq::new(n, |i: int| ' ')
}

/// `s` moved to the right of a field `width` wide.
pub open spec fn right(s: Seq<char>, width: nat) -> Seq<char> {
    if s.len() < width {
        spaces((width - s.len()) as nat) + s
    } else {
        s
    }
}

/// `s` at the left of a field `width` wide.
pub open spec fn left(s: Seq<char>, width: nat) -> Seq<char> {
    if s.len() < width {
        s + spaces((width - s.len()) as nat)
    } else {
        s
    }
}

/// Appends the numeral of one digit.
fn push_digit(s: &mut String, d: u8)
    requires
        d < 16,
    ensures
        final(s)@ == old(s)@.push(digit(d as nat)),
{
    proof {
        reveal_strlit("0");
        reveal_strlit("1");
        reveal_strlit("2");
        reveal_strlit("3");
        reveal_strlit("4");
        reveal_strlit("5");
        reveal_strlit("6");
        reveal_strlit("7");
        reveal_strlit("8");
        reveal_strlit("9");
        reveal_strlit("a");
        reveal_strlit("b");
        reveal_strlit("c");
        reveal_strlit("d");
        reveal_strlit("e");
        reveal_strlit("f");
    }
    let t: &str = match d {
        0 => "0",
        1 => "1",
        2 => "2",
        3 => "3",
        4 => "4",
        5 => "5",
        6 => "6",
        7 => "7",
        8 => "8",
        9 => "9",
        10 => "a",
        11 => "b",
        12 => "c",
        13 => "d",
        14 => "e",
        _ => "f",
    };
    assert(t@ =~= seq![digit(d as nat)]);
    s.append(t);
    assert(s@ =~= old(s)@.push(digit(d as nat)));
}

/// Appends `n` in decimal.
pub fn push_dec(s: &mut String, n: u64)
    ensures
        final(s)@ == old(s)@ + dec(n as nat),
    decreases n,
{
    if n >= 10 {
        push_dec(s, n / 10);
    }
    push_digit(s, (n % 10) as u8);
    assert(s@ =~= old(s)@ + dec(n as nat));
}

/// Appends a wide `n` in decimal.
pub fn push_dec_wide(s: &mut String, n: u128)
    ensures
        final(s)@ == old(s)@ + dec(n as nat),
    decreases n,
{
    if n >= 10 {
        push_dec_wide(s, n / 10);
    }
    push_digit(s, (n % 10) as u8);
    assert(s@ =~= old(s)@ + dec(n as nat));
}

/// Appends a signed `n` in decimal.
pub fn push_signed(s: &mut String, n: i64)
    ensures
        final(s)@ == old(s)@ + signed_dec(n as int),
{
    if n < 0 {
        proof {
            reveal_strlit("-");
        }
        s.append("-");
        let m: u64 = if n == i64::MIN {
            0x8000_0000_0000_0000
        } else {
            (-n) as u64
        };
        push_dec(s, m);
        assert(s@ =~= old(s)@ + signed_dec(n as int));
    } else {
        push_dec(s, n as u64);
    }
}

/// Appends one byte as two hexadecimal numerals.
pub fn push_hex_byte(s: &mut String, b: u8)
    ensures
        final(s)@ == old(s)@.push(digit((b / 16) as nat)).push(digit((b % 16) as nat)),
{
    push_digit(s, b / 16);
    push_digit(s, b % 16);
}

/// Appends `n` spaces.
pub fn push_spaces(s: &mut String, n: usize)
    ensures
        final(s)@ == old(s)@ + spaces(n as nat),
{
    let mut i: usize = 0;
    while i < n
        invariant
            i <= n,
            s@ == old(s)@ + spaces(i as nat),
        decreases n - i,
    {
        proof {
            reveal_strlit(" ");
        }
        s.append(" ");
        i = i + 1;
        assert(s@ =~= old(s)@ + spaces(i as nat));
    }
    assert(s@ =~= old(s)@ + spaces(n as nat));
}

/// The numeral of `n` on its own.
pub fn dec_text(n: u64) -> (s: String)
    ensures
        s@ == dec(n as nat),
{
    let mut s = String::new();
    push_dec(&mut s, n);
    assert(s@ =~= dec(n as nat));
    s
}

/// `t` moved to the right of a field `width` wide.
pub fn right_text(t: &str, width: usize) -> (s: String)
    ensures
        s@ == right(t@, width as nat),
{
    let n: usize = t.unicode_len();
    let mut s = String::new();
    if n < width {
        push_spaces(&mut s, width - n);
    }
    s.append(t);
    assert(s@ =~= right(t@, width as nat));
    s
}

/// `t` at the left of a field `width` wide.
pub fn left_text(t: &str, width: usize) -> (s: String)
    ensures
        s@ == left(t@, width as nat),
{
    let n: usize = t.unicode_len();
    let mut s = t.to_owned();
    if n < width {
        push_spaces(&mut s, width - n);
    }
    assert(s@ =~= left(t@, width as nat));
    s
}

/// Whether two texts are the same.
pub fn same_text(a: &String, b: &str) -> (r: bool)
    ensures
        r == (a@ == b@),
{
    let c: String = b.to_owned();
    *a == c
}

/// The number that some decimal numerals stand for.
pub open spec fn number_of(s: Seq<char>) -> int
    decreases s.len(),
{
    if s.len() == 0 {
        0
    } else {
        10 * number_of(s.drop_last()) + (s.last() as int - '0' as int)
    }
}

/// Law: a number in decimal reads back as it was, is made of the numerals `0` to `9`, and begins with a zero
/// only where it is zero.
pub proof fn law_decimal_reads_back(n: nat)
    ensures
        number_of(dec(n)) == n,
        dec(n).len() > 0,
        forall|i: int| 0 <= i < dec(n).len() ==> '0' <= #[trigger] dec(n)[i] <= '9',
        n > 0 ==> dec(n)[0] != '0',
    decreases n,
{
    reveal_with_fuel(number_of, 2);
    if n >= 10 {
        law_decimal_reads_back(n / 10);
        assert(dec(n).drop_last() =~= dec(n / 10));
        assert(dec(n)[0] == dec(n / 10)[0]);
    } else {
        assert(dec(n).drop_last() =~= Seq::<char>::empty());
    }
}

/// Law: a number with its sign is the number in decimal, and begins with a minus where it is negative.
pub proof fn law_sign_stands_first(n: int)
    ensures
        n >= 0 ==> number_of(signed_dec(n)) == n,
        n < 0 ==> signed_dec(n)[0] == '-' && number_of(signed_dec(n).skip(1)) == -n,
{
    if n < 0 {
        law_decimal_reads_back((0 - n) as nat);
        assert(signed_dec(n).skip(1) =~= dec((0 - n) as nat));
    } else {
        law_decimal_reads_back(n as nat);
    }
}

/// What a hexadecimal numeral stands for.
pub open spec fn numeral(c: char) -> int {
    if c <= '9' {
        c as int - '0' as int
    } else {
        c as int - 'a' as int + 10
    }
}

/// Law: bytes in hexadecimal are two numerals each, the upper half first.
pub proof fn law_hexadecimal_reads_back(b: Seq<u8>, i: int)
    requires
        0 <= i < b.len(),
    ensures
        hex(b).len() == 2 * b.len(),
        16 * numeral(hex(b)[2 * i]) + numeral(hex(b)[2 * i + 1]) == b[i],
        0 <= numeral(hex(b)[2 * i + 1]) < 16,
    decreases b.len(),
{
    let less = b.drop_last();
    lemma_hex_len(less);
    lemma_hex_len(b);
    if i < less.len() {
        law_hexadecimal_reads_back(less, i);
        assert(hex(b)[2 * i] == hex(less)[2 * i]);
        assert(hex(b)[2 * i + 1] == hex(less)[2 * i + 1]);
    }
}

proof fn lemma_hex_len(b: Seq<u8>)
    ensures
        hex(b).len() == 2 * b.len(),
    decreases b.len(),
{
    if b.len() > 0 {
        lemma_hex_len(b.drop_last());
    }
}

/// Law: a field is at least as wide as asked for, and its text stands at its end or its beginning, with
/// spaces alone beside it.
pub proof fn law_fields_are_padded_with_spaces(s: Seq<char>, width: nat)
    ensures
        right(s, width).len() == (if s.len() < width {
            width
        } else {
            s.len()
        }),
        right(s, width).skip(right(s, width).len() - s.len()) == s,
        forall|i: int|
            0 <= i < right(s, width).len() - s.len() ==> #[trigger] right(s, width)[i] == ' ',
        left(s, width).len() == (if s.len() < width {
            width
        } else {
            s.len()
        }),
        left(s, width).take(s.len() as int) == s,
        forall|i: int| s.len() <= i < left(s, width).len() ==> #[trigger] left(s, width)[i] == ' ',
{
    assert(right(s, width).skip(right(s, width).len() - s.len()) =~= s);
    assert(left(s, width).take(s.len() as int) =~= s);
}

}
