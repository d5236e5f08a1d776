//! Decimal rendering of integers and the clock format of durations.

use vstd::prelude::*;

verus! {

/// The character of a decimal digit.
pub open spec fn digit(d: nat) -> char {
    if d == 0 {
        '0'
    } else if d == 1 {
        '1'
    } else if d == 2 {
        '2'
    } else if d == 3 {
        '3'
    } else if d == 4 {
        '4'
    } else if d == 5 {
        '5'
    } else if d == 6 {
        '6'
    } else if d == 7 {
        '7'
    } else if d == 8 {
        '8'
    } else {
        '9'
    }
}

/// The decimal digits of a natural number, most significant first, without
/// leading zeros.
pub open spec fn decimal(n: nat) -> Seq<char>
    decreases n,
{
    if n < 10 {
        seq![digit(n)]
    } else {
        decimal(n / 10).push(digit(n % 10))
    }
}

/// The decimal text of an integer: a minus sign before the digits of a
/// negative one.
pub open spec fn int_text(i: int) -> Seq<char> {
    if i < 0 {
        seq!['-'] + decimal((-i) as nat)
    } else {
        decimal(i as nat)
    }
}

/// A number of at least two digits: one leading zero before a single digit.
pub open spec fn two_digits(n: nat) -> Seq<char> {
    if n < 10 {
        seq!['0'] + decimal(n)
    } else {
        decimal(n)
    }
}

/// A duration in seconds as `HH:MM:SS`. The hours are the whole duration
/// divided by 3600 and grow past two digits where they have to.
pub open spec fn duration_text(seconds: nat) -> Seq<char> {
    two_digits(seconds / 3600) + seq![':'] + two_digits((seconds % 3600) / 60) + seq![':']
        + two_digits(seconds % 60)
}

/// A character that the decimal text of an integer can hold: a digit or the
/// minus sign.
pub open spec fn numeric(c: char) -> bool {
    c == '-' || c == '0' || c == '1' || c == '2' || c == '3' || c == '4' || c == '5' || c == '6'
        || c == '7' || c == '8' || c == '9'
}

/// A text made of numeric characters alone.
pub open spec fn all_numeric(text: Seq<char>) -> bool {
    forall|i: int| 0 <= i < text.len() ==> numeric(#[trigger] text[i])
}

/// A text that does not go on as a number would: it is empty or starts with a
/// character that is not numeric.
pub open spec fn breaks_number(text: Seq<char>) -> bool {
    text.len() == 0 || !numeric(text[0])
}

/// The digits of a number are at least one, all of them digits, and none of
/// them the minus sign.
pub proof fn lemma_decimal_shape(n: nat)
    ensures
        decimal(n).len() >= 1,
        all_numeric(decimal(n)),
        forall|i: int| 0 <= i < decimal(n).len() ==> #[trigger] decimal(n)[i] != '-',
    decreases n,
{
    if n >= 10 {
        lemma_decimal_shape(n / 10);
    }
}

/// Two numbers with the same digits are the same number.
pub proof fn lemma_decimal_injective(a: nat, b: nat)
    requires
        decimal(a) == decimal(b),
    ensures
        a == b,
    decreases a,
{
    lemma_decimal_shape(a / 10);
    lemma_decimal_shape(b / 10);
    if a >= 10 && b >= 10 {
        let da = decimal(a / 10);
        let db = decimal(b / 10);
        assert(da.push(digit(a % 10)).drop_last() =~= da);
        assert(db.push(digit(b % 10)).drop_last() =~= db);
        assert(da.push(digit(a % 10)).last() == digit(a % 10));
        assert(db.push(digit(b % 10)).last() == digit(b % 10));
        lemma_decimal_injective(a / 10, b / 10);
    } else if a < 10 && b < 10 {
        assert(decimal(a)[0] == digit(a));
        assert(decimal(b)[0] == digit(b));
    } else {
        if a < 10 {
            assert(decimal(a).len() == 1);
            assert(decimal(b).len() == decimal(b / 10).len() + 1);
        } else {
            assert(decimal(b).len() == 1);
            assert(decimal(a).len() == decimal(a / 10).len() + 1);
        }
    }
}

/// The text of an integer is not empty and holds numeric characters alone.
pub proof fn lemma_int_text_shape(i: int)
    ensures
        int_text(i).len() >= 1,
        all_numeric(int_text(i)),
{
    if i < 0 {
        lemma_decimal_shape((-i) as nat);
    } else {
        lemma_decimal_shape(i as nat);
    }
}

/// Two integers with the same text are the same integer.
pub proof fn lemma_int_text_injective(a: int, b: int)
    requires
        int_text(a) == int_text(b),
    ensures
        a == b,
{
    let ma = (if a < 0 { -a } else { a }) as nat;
    let mb = (if b < 0 { -b } else { b }) as nat;
    lemma_decimal_shape(ma);
    lemma_decimal_shape(mb);
    if a < 0 && b < 0 {
        lemma_same_start(seq!['-'], decimal(ma), decimal(mb));
        lemma_decimal_injective(ma, mb);
    } else if a >= 0 && b >= 0 {
        lemma_decimal_injective(ma, mb);
    } else if a < 0 {
        assert(int_text(a)[0] == '-');
        assert(int_text(b)[0] == decimal(mb)[0]);
    } else {
        assert(int_text(b)[0] == '-');
        assert(int_text(a)[0] == decimal(ma)[0]);
    }
}

/// A numeric text followed by a text that breaks the number can be read back
/// in one way only: where two such compositions are the same text, the
/// numeric parts are the same and so are the rests.
pub proof fn lemma_number_then_rest(u: Seq<char>, s: Seq<char>, v: Seq<char>, t: Seq<char>)
    requires
        all_numeric(u),
        all_numeric(v),
        breaks_number(s),
        breaks_number(t),
        u + s == v + t,
    ensures
        u == v,
        s == t,
{
    let w = u + s;
    if u.len() < v.len() {
        assert(w[u.len() as int] == v[u.len() as int]);
        assert(s.len() > 0);
        assert(w[u.len() as int] == s[0]);
        assert(false);
    }
    if v.len() < u.len() {
        assert(w[v.len() as int] == u[v.len() as int]);
        assert(t.len() > 0);
        assert((v + t)[v.len() as int] == t[0]);
        assert(false);
    }
    assert(u =~= v) by {
        assert forall|i: int| 0 <= i < u.len() implies u[i] == v[i] by {
            assert(w[i] == u[i]);
            assert((v + t)[i] == v[i]);
        }
    }
    assert(s =~= t) by {
        assert(s.len() == t.len()) by {
            assert(w.len() == u.len() + s.len());
            assert((v + t).len() == v.len() + t.len());
        }
        assert forall|i: int| 0 <= i < s.len() implies s[i] == t[i] by {
            assert(w[u.len() + i] == s[i]);
            assert((v + t)[v.len() + i] == t[i]);
        }
    }
}

/// The same text before two rests: the whole texts are equal only where the
/// rests are.
pub proof fn lemma_same_start(start: Seq<char>, s: Seq<char>, t: Seq<char>)
    requires
        start + s == start + t,
    ensures
        s == t,
{
    assert(s =~= t) by {
        assert((start + s).len() == start.len() + s.len());
        assert((start + t).len() == start.len() + t.len());
        assert forall|i: int| 0 <= i < s.len() implies s[i] == t[i] by {
            assert((start + s)[start.len() + i] == s[i]);
            assert((start + t)[start.len() + i] == t[i]);
        }
    }
}

fn digit_str(d: u64) -> (s: &'static str)
    requires
        d < 10,
    ensures
        s@ == seq![digit(d as nat)],
{
    proof {
        reveal_strlit("0");
        reveal_strlit("1");
        reveal_strlit("2");
        reveal_strlit("3");
        reveal_strlit("4");
        reveal_strlit("5");
        reveal_strlit("6");
        reveal_strlit("7");
        reveal_strlit("8");
        reveal_strlit("9");
    }
    let s = if d == 0 {
        "0"
    } else if d == 1 {
        "1"
    } else if d == 2 {
        "2"
    } else if d == 3 {
        "3"
    } else if d == 4 {
        "4"
    } else if d == 5 {
        "5"
    } else if d == 6 {
        "6"
    } else if d == 7 {
        "7"
    } else if d == 8 {
        "8"
    } else {
        "9"
    };
    assert(s@ =~= seq![digit(d as nat)]);
    s
}

/// Appends the decimal digits of `n` to `out`.
pub fn push_decimal(out: &mut String, n: u64)
    ensures
        final(out)@ == old(out)@ + decimal(n as nat),
    decreases n,
{
    if n >= 10 {
        push_decimal(out, n / 10);
    }
    out.append(digit_str(n % 10));
    assert(out@ =~= old(out)@ + decimal(n as nat));
}

/// Appends the decimal text of `i` to `out`.
pub fn push_int(out: &mut String, i: i32)
    ensures
        final(out)@ == old(out)@ + int_text(i as int),
{
    if i < 0 {
        proof {
            reveal_strlit("-");
        }
        out.append("-");
        let magnitude: u64 = (-(i as i64)) as u64;
        push_decimal(out, magnitude);
        assert(out@ =~= old(out)@ + int_text(i as int));
    } else {
        push_decimal(out, i as u64);
    }
}

/// Appends `n` with at least two digits to `out`.
pub fn push_two_digits(out: &mut String, n: u64)
    ensures
        final(out)@ == old(out)@ + two_digits(n as nat),
{
    if n < 10 {
        proof {
            reveal_strlit("0");
        }
        out.append("0");
    }
    push_decimal(out, n);
    assert(out@ =~= old(out)@ + two_digits(n as nat));
}

/// Formats a duration in seconds as zero-padded `HH:MM:SS`.
pub fn format_duration(seconds: i32) -> (text: String)
    requires
        seconds >= 0,
    ensures
        text@ == duration_text(seconds as nat),
{
    let total: u64 = seconds as u64;
    let mut text = String::new();
    proof {
        reveal_strlit(":");
    }
    push_two_digits(&mut text, total / 3600);
    text.append(":");
    push_two_digits(&mut text, (total % 3600) / 60);
    text.append(":");
    push_two_digits(&mut text, total % 60);
    assert(text@ =~= duration_text(seconds as nat));
    text
}

} // verus!
