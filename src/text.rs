//! Character-level helpers shared by the matcher and the corrector.
use vstd::prelude::*;

verus! {

broadcast use vstd::string::group_string_axioms;

/// The characters of `s`, in order.
pub fn chars_of(s: &str) -> (r: Vec<char>)
    ensures
        r@ == s@,
{
    let mut r: Vec<char> = Vec::new();
    for c in it: s.chars()
        invariant
            r@ == it.seq().take(it.index() as int),
    {
        r.push(c);
    }
    assert(r@ =~= s@);
    r
}

/// The fields joined with `sep`.
pub open spec fn sep_joined(v: Seq<Seq<char>>, sep: char) -> Seq<char>
    decreases v.len(),
{
    if v.len() == 0 {
        Seq::empty()
    } else if v.len() == 1 {
        v[0]
    } else {
        sep_joined(v.drop_last(), sep) + seq![sep] + v.last()
    }
}

/// Splits a line at each `sep`: the fields hold no `sep` and, joined with
/// `sep`, give the line back. An empty line is one empty field.
pub fn split_fields(line: &str, sep: char) -> (r: Vec<String>)
    ensures
        r@.len() >= 1,
        sep_joined(r@.map_values(|f: String| f@), sep) == line@,
        forall|i: int, j: int| 0 <= i < r@.len() && 0 <= j < r@[i]@.len() ==> r@[i]@[j] != sep,
{
    let cs = chars_of(line);
    let mut fields: Vec<String> = Vec::new();
    let mut cur = String::new();
    let mut i: usize = 0;
    while i < cs.len()
        invariant
            cs@ == line@,
            i <= cs@.len(),
            fields@.len() == 0 ==> cur@ == line@.take(i as int),
            fields@.len() > 0 ==> sep_joined(fields@.map_values(|f: String| f@), sep) + seq![sep] + cur@ == line@.take(i as int),
            forall|a: int, b: int| 0 <= a < fields@.len() && 0 <= b < fields@[a]@.len() ==> fields@[a]@[b] != sep,
            forall|b: int| 0 <= b < cur@.len() ==> cur@[b] != sep,
        decreases cs@.len() - i,
    {
        let c = cs[i];
        assert(line@.take(i + 1) == line@.take(i as int).push(c));
        if c == sep {
            let ghost before = fields@.map_values(|f: String| f@);
            let done = cur;
            fields.push(done);
            cur = String::new();
            assert(fields@.map_values(|f: String| f@) =~= before.push(done@));
            assert(fields@.map_values(|f: String| f@).drop_last() =~= before);
        } else {
            push_char(&mut cur, c);
        }
        i = i + 1;
    }
    assert(line@.take(cs@.len() as int) =~= line@);
    let ghost before = fields@.map_values(|f: String| f@);
    let last = cur;
    fields.push(last);
    assert(fields@.map_values(|f: String| f@) =~= before.push(last@));
    assert(fields@.map_values(|f: String| f@).drop_last() =~= before);
    fields
}

/// Relies on `String::push`: appends one character.
#[verifier::external_body]
pub(crate) fn push_char(s: &mut String, c: char)
    ensures
        final(s)@ == old(s)@.push(c),
{
    s.push(c)
}

/// The decimal digit for `d`.
pub open spec fn digit(d: nat) -> char {
    if d == 0 { '0' } else if d == 1 { '1' } else if d == 2 { '2' } else if d == 3 { '3' }
    else if d == 4 { '4' } else if d == 5 { '5' } else if d == 6 { '6' } else if d == 7 { '7' }
    else if d == 8 { '8' } else { '9' }
}

/// The decimal spelling of `n`, without leading zeros.
pub open spec fn decimal(n: nat) -> Seq<char>
    decreases n,
{
    if n < 10 {
        seq![digit(n)]
    } else {
        decimal(n / 10).push(digit(n % 10))
    }
}

/// Appends the decimal spelling of `n`.
pub fn push_decimal(s: &mut String, n: usize)
    ensures
        final(s)@ == old(s)@ + decimal(n as nat),
    decreases n,
{
    if n >= 10 {
        push_decimal(s, n / 10);
    }
    let d = n % 10;
    let c = if d == 0 { '0' } else if d == 1 { '1' } else if d == 2 { '2' } else if d == 3 { '3' }
    else if d == 4 { '4' } else if d == 5 { '5' } else if d == 6 { '6' } else if d == 7 { '7' }
    else if d == 8 { '8' } else { '9' };
    push_char(s, c);
    assert(s@ =~= old(s)@ + decimal(n as nat));
}

} // verus!
