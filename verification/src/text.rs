//! Character-level helpers shared by the other modules.

use vstd::prelude::*;

verus! {

/// Appends one character to a `String` (std's `String::push`).
#[verifier::external_body]
pub(crate) fn push_char(s: &mut String, c: char)
    ensures
        final(s)@ == old(s)@.push(c),
{
    s.push(c);
}

/// The ASCII character of the decimal digit `d` (`d < 10`).
pub open spec fn ascii_digit(d: nat) -> char {
    ((48 + d) as u8) as char
}

/// The decimal representation of `n`, most significant digit first, without
/// leading zeros (what `format!("{}", n)` prints for an unsigned integer).
pub open spec fn decimal(n: nat) -> Seq<char>
    decreases n,
{
    if n < 10 {
        seq![ascii_digit(n)]
    } else {
        decimal(n / 10).push(ascii_digit(n % 10))
    }
}

/// Appends the decimal representation of `n` to `s`.
pub fn push_decimal(s: &mut String, n: u64)
    ensures
        final(s)@ == old(s)@ + decimal(n as nat),
    decreases n,
{
    if n >= 10 {
        push_decimal(s, n / 10);
    }
    let d: u8 = (n % 10) as u8;
    push_char(s, (48u8 + d) as char);
    proof {
        if n < 10 {
            assert(old(s)@ + decimal(n as nat) =~= old(s)@.push(ascii_digit(n as nat)));
        }
    }
}

/// The characters of `s`, in order.
pub fn chars_of(s: &str) -> (r: Vec<char>)
    ensures
        r@ == s@,
{
    let n = s.unicode_len();
    let mut v: Vec<char> = Vec::new();
    for i in 0..n
        invariant
            n == s@.len(),
            v@ == s@.take(i as int),
    {
        v.push(s.get_char(i));
        assert(v@ =~= s@.take(i + 1));
    }
    assert(v@ =~= s@);
    v
}

/// A `String` holding exactly the given characters.
pub fn string_of(cs: &Vec<char>) -> (r: String)
    ensures
        r@ == cs@,
{
    let mut s = String::new();
    for i in 0..cs.len()
        invariant
            s@ == cs@.take(i as int),
    {
        push_char(&mut s, cs[i]);
        assert(s@ =~= cs@.take(i + 1));
    }
    assert(s@ =~= cs@);
    s
}

/// Whether two strings hold the same characters.
pub fn text_eq(a: &str, b: &str) -> (r: bool)
    ensures
        r == (a@ == b@),
{
    let n = a.unicode_len();
    if n != b.unicode_len() {
        return false;
    }
    for i in 0..n
        invariant
            n == a@.len(),
            n == b@.len(),
            forall|j: int| 0 <= j < i ==> a@[j] == b@[j],
    {
        if a.get_char(i) != b.get_char(i) {
            return false;
        }
    }
    assert(a@ =~= b@);
    true
}

/// The pieces of `s` between occurrences of `sep` (one more than there are
/// separators).
pub open spec fn split_on(s: Seq<char>, sep: char) -> Seq<Seq<char>>
    decreases s.len(),
{
    if s.len() == 0 {
        seq![seq![]]
    } else {
        let prev = split_on(s.drop_last(), sep);
        if s.last() == sep {
            prev.push(seq![])
        } else {
            prev.update(prev.len() - 1, prev.last().push(s.last()))
        }
    }
}

pub proof fn lemma_split_on_len(s: Seq<char>, sep: char)
    ensures
        split_on(s, sep).len() >= 1,
    decreases s.len(),
{
    if s.len() > 0 {
        lemma_split_on_len(s.drop_last(), sep);
    }
}

/// The views of a list of character vectors.
pub open spec fn pieces(v: Seq<Vec<char>>) -> Seq<Seq<char>> {
    v.map_values(|p: Vec<char>| p@)
}

/// Splits `s` at every `sep`.
pub fn split_chars(s: &Vec<char>, sep: char) -> (r: Vec<Vec<char>>)
    ensures
        pieces(r@) == split_on(s@, sep),
{
    let mut done: Vec<Vec<char>> = Vec::new();
    let mut cur: Vec<char> = Vec::new();
    for i in 0..s.len()
        invariant
            pieces(done@).push(cur@) == split_on(s@.take(i as int), sep),
    {
        proof {
            assert(s@.take(i + 1).drop_last() =~= s@.take(i as int));
            lemma_split_on_len(s@.take(i as int), sep);
        }
        if s[i] == sep {
            let ghost before = pieces(done@).push(cur@);
            done.push(cur);
            cur = Vec::new();
            assert(pieces(done@).push(cur@) =~= before.push(seq![]));
        } else {
            let ghost before = pieces(done@).push(cur@);
            cur.push(s[i]);
            assert(pieces(done@).push(cur@) =~= before.update(before.len() - 1, before.last().push(s@[i as int])));
        }
    }
    assert(s@.take(s@.len() as int) =~= s@);
    let ghost all = pieces(done@).push(cur@);
    done.push(cur);
    assert(pieces(done@) =~= all);
    done
}


/// Appending characters other than `sep` extends the last piece.
pub proof fn lemma_split_on_extend(x: Seq<char>, b: Seq<char>, sep: char)
    requires
        !b.contains(sep),
    ensures
        split_on(x + b, sep) == split_on(x, sep).update(
            split_on(x, sep).len() - 1,
            split_on(x, sep).last() + b,
        ),
    decreases b.len(),
{
    lemma_split_on_len(x, sep);
    if b.len() == 0 {
        assert(x + b =~= x);
        assert(split_on(x, sep).last() + b =~= split_on(x, sep).last());
        assert(split_on(x, sep).update(split_on(x, sep).len() - 1, split_on(x, sep).last())
            =~= split_on(x, sep));
    } else {
        let b0 = b.drop_last();
        assert(!b0.contains(sep)) by {
            if b0.contains(sep) {
                let i = choose|i: int| 0 <= i < b0.len() && b0[i] == sep;
                assert(b[i] == sep);
            }
        }
        assert(b.last() != sep) by {
            assert(b[b.len() - 1] == b.last());
        }
        lemma_split_on_extend(x, b0, sep);
        assert((x + b).drop_last() =~= x + b0);
        assert((x + b).last() == b.last());
        let prev = split_on(x + b0, sep);
        assert(split_on(x + b, sep) == prev.update(prev.len() - 1, prev.last().push(b.last())));
        assert(split_on(x, sep).last() + b =~= (split_on(x, sep).last() + b0).push(b.last()));
        assert(split_on(x + b, sep) =~= split_on(x, sep).update(
            split_on(x, sep).len() - 1,
            split_on(x, sep).last() + b,
        ));
    }
}

/// Text without separators, with one separator in front or between.
pub proof fn lemma_split_on_pair(a: Seq<char>, b: Seq<char>, sep: char)
    requires
        !a.contains(sep),
        !b.contains(sep),
    ensures
        split_on(a + seq![sep] + b, sep) == seq![a, b],
{
    let e = Seq::<char>::empty();
    lemma_split_on_extend(e, a, sep);
    assert(e + a =~= a);
    assert(split_on(e, sep) == seq![e]);
    assert(split_on(a, sep) =~= seq![a]);
    let x = a + seq![sep];
    assert(x.drop_last() =~= a);
    assert(split_on(x, sep) =~= seq![a, e]);
    lemma_split_on_extend(x, b, sep);
    assert(e + b =~= b);
    assert(split_on(x + b, sep) =~= seq![a, b]);
}

/// A separator and then text without separators add one piece.
pub proof fn lemma_split_on_push(x: Seq<char>, b: Seq<char>, sep: char)
    requires
        !b.contains(sep),
    ensures
        split_on(x + seq![sep] + b, sep) == split_on(x, sep).push(b),
{
    let y = x + seq![sep];
    assert(y.drop_last() =~= x);
    assert(split_on(y, sep) == split_on(x, sep).push(seq![]));
    lemma_split_on_extend(y, b, sep);
    assert(Seq::<char>::empty() + b =~= b);
    assert(split_on(y + b, sep) =~= split_on(x, sep).push(b));
}

} // verus!
