//! Character-level helpers: decimal numerals, JSON pointer tokens and the
//! order of strings.
use vstd::prelude::*;

verus! {

/// Appends one character with `String::push`.
///
/// Trusted: std documents `push` as appending the character to the end of
/// the string.
#[verifier::external_body]
pub(crate) fn push_char(s: &mut String, c: char)
    ensures
        final(s)@ == old(s)@.push(c),
{
    s.push(c)
}

/// The character of a decimal digit.
pub open spec fn digit_char(d: nat) -> char {
    if d == 0 {
        '0'
    } else if d == 1 {
        '1'
    } else if d == 2 {
        '2'
    } else if d == 3 {
        '3'
    } else if d == 4 {
        '4'
    } else if d == 5 {
        '5'
    } else if d == 6 {
        '6'
    } else if d == 7 {
        '7'
    } else if d == 8 {
        '8'
    } else {
        '9'
    }
}

/// The decimal numeral of a natural number, without leading zeros.
pub open spec fn decimal(n: nat) -> Seq<char>
    decreases n,
{
    if n < 10 {
        seq![digit_char(n)]
    } else {
        decimal(n / 10).push(digit_char(n % 10))
    }
}

fn digit(d: usize) -> (c: char)
    requires
        d < 10,
    ensures
        c == digit_char(d as nat),
{
    if d == 0 {
        '0'
    } else if d == 1 {
        '1'
    } else if d == 2 {
        '2'
    } else if d == 3 {
        '3'
    } else if d == 4 {
        '4'
    } else if d == 5 {
        '5'
    } else if d == 6 {
        '6'
    } else if d == 7 {
        '7'
    } else if d == 8 {
        '8'
    } else {
        '9'
    }
}

/// The decimal numeral of `n`, as `usize::to_string` writes it.
pub fn decimal_string(n: usize) -> (s: String)
    ensures
        s@ == decimal(n as nat),
    decreases n,
{
    if n < 10 {
        let mut s = String::new();
        push_char(&mut s, digit(n));
        s
    } else {
        let mut s = decimal_string(n / 10);
        push_char(&mut s, digit(n % 10));
        s
    }
}

/// How RFC 6901 writes one character of a key inside a pointer token:
/// `~` as `~0`, `/` as `~1`, any other character as itself.
pub open spec fn escape_char(c: char) -> Seq<char> {
    if c == '~' {
        seq!['~', '0']
    } else if c == '/' {
        seq!['~', '1']
    } else {
        seq![c]
    }
}

/// A key written as a JSON pointer token.
pub open spec fn escape_token(key: Seq<char>) -> Seq<char>
    decreases key.len(),
{
    if key.len() == 0 {
        Seq::empty()
    } else {
        escape_char(key[0]) + escape_token(key.drop_first())
    }
}

/// Escaping works character by character.
pub proof fn lemma_escape_append(a: Seq<char>, b: Seq<char>)
    ensures
        escape_token(a + b) == escape_token(a) + escape_token(b),
    decreases a.len(),
{
    if a.len() == 0 {
        assert(a + b =~= b);
    } else {
        assert((a + b).drop_first() =~= a.drop_first() + b);
        lemma_escape_append(a.drop_first(), b);
        assert(escape_token(a + b) =~= escape_token(a) + escape_token(b));
    }
}

/// How RFC 6901 reads a pointer token back into a key: `~1` as `/`, `~0`
/// as `~`, any other character as itself.
pub open spec fn unescape_token(token: Seq<char>) -> Seq<char>
    decreases token.len(),
{
    if token.len() == 0 {
        Seq::empty()
    } else if token.len() >= 2 && token[0] == '~' && token[1] == '1' {
        seq!['/'] + unescape_token(token.skip(2))
    } else if token.len() >= 2 && token[0] == '~' && token[1] == '0' {
        seq!['~'] + unescape_token(token.skip(2))
    } else {
        seq![token[0]] + unescape_token(token.skip(1))
    }
}

/// Writes `key` as a JSON pointer token (`~` becomes `~0`, then `/` becomes
/// `~1`).
pub fn escape_pointer_token(key: &str) -> (t: String)
    ensures
        t@ == escape_token(key@),
{
    let n = key.unicode_len();
    let mut t = String::new();
    let mut i: usize = 0;
    while i < n
        invariant
            n == key@.len(),
            i <= n,
            t@ == escape_token(key@.take(i as int)),
        decreases n - i,
    {
        let c = key.get_char(i);
        if c == '~' {
            push_char(&mut t, '~');
            push_char(&mut t, '0');
        } else if c == '/' {
            push_char(&mut t, '~');
            push_char(&mut t, '1');
        } else {
            push_char(&mut t, c);
        }
        proof {
            assert(key@.take(i + 1) =~= key@.take(i as int) + seq![c]);
            lemma_escape_append(key@.take(i as int), seq![c]);
            assert(seq![c].drop_first() =~= Seq::<char>::empty());
            assert(escape_token(Seq::<char>::empty()) =~= Seq::<char>::empty());
            assert(escape_token(seq![c]) =~= escape_char(c));
            assert(t@ =~= escape_token(key@.take(i as int)) + escape_char(c));
        }
        i = i + 1;
    }
    assert(key@.take(n as int) =~= key@);
    t
}

/// A key written as a pointer token reads back as the same key, and the
/// token holds no `/`, so it never splits the pointer it is appended to.
pub proof fn lemma_escape_round_trip(key: Seq<char>)
    ensures
        unescape_token(escape_token(key)) == key,
        !escape_token(key).contains('/'),
    decreases key.len(),
{
    if key.len() > 0 {
        let c = key[0];
        let rest = escape_token(key.drop_first());
        lemma_escape_round_trip(key.drop_first());
        let t = escape_char(c) + rest;
        assert(escape_token(key) == t);
        if c == '~' || c == '/' {
            assert(t.skip(2) =~= rest);
        } else {
            assert(t.skip(1) =~= rest);
        }
        assert(key =~= seq![c] + key.drop_first());
        assert forall|j: int| 0 <= j < t.len() implies t[j] != '/' by {
            if j >= escape_char(c).len() {
                assert(t[j] == rest[j - escape_char(c).len()]);
            }
        }
    }
}

/// Strict lexicographic order of strings by their characters' code points;
/// for UTF-8 text it is the byte order by which `String` compares.
pub open spec fn seq_less(a: Seq<char>, b: Seq<char>) -> bool
    decreases a.len(),
{
    if b.len() == 0 {
        false
    } else if a.len() == 0 {
        true
    } else if a[0] != b[0] {
        (a[0] as int) < (b[0] as int)
    } else {
        seq_less(a.drop_first(), b.drop_first())
    }
}

/// Any two strings are equal or one comes before the other.
pub proof fn lemma_seq_less_total(a: Seq<char>, b: Seq<char>)
    ensures
        a == b || seq_less(a, b) || seq_less(b, a),
    decreases a.len(),
{
    if a.len() == 0 || b.len() == 0 {
        if a.len() == 0 && b.len() == 0 {
            assert(a =~= b);
        }
    } else if a[0] == b[0] {
        lemma_seq_less_total(a.drop_first(), b.drop_first());
        if a.drop_first() == b.drop_first() {
            assert(a =~= seq![a[0]] + a.drop_first());
            assert(b =~= seq![b[0]] + b.drop_first());
        }
    } else {
        assert((a[0] as int) != (b[0] as int));
    }
}

/// The order of strings is transitive.
pub proof fn lemma_seq_less_transitive(a: Seq<char>, b: Seq<char>, c: Seq<char>)
    requires
        seq_less(a, b),
        seq_less(b, c),
    ensures
        seq_less(a, c),
    decreases a.len(),
{
    if a.len() > 0 && b.len() > 0 && c.len() > 0 && a[0] == b[0] && b[0] == c[0] {
        lemma_seq_less_transitive(a.drop_first(), b.drop_first(), c.drop_first());
    }
}

/// No string comes before itself.
pub proof fn lemma_seq_less_irreflexive(a: Seq<char>)
    ensures
        !seq_less(a, a),
    decreases a.len(),
{
    if a.len() > 0 {
        lemma_seq_less_irreflexive(a.drop_first());
    }
}

/// Whether `a` comes strictly before `b` in the order of [`seq_less`].
pub fn str_less(a: &str, b: &str) -> (r: bool)
    ensures
        r == seq_less(a@, b@),
{
    let na = a.unicode_len();
    let nb = b.unicode_len();
    let mut i: usize = 0;
    assert(a@.skip(0) =~= a@);
    assert(b@.skip(0) =~= b@);
    while i < na && i < nb
        invariant
            na == a@.len(),
            nb == b@.len(),
            i <= na,
            i <= nb,
            seq_less(a@, b@) == seq_less(a@.skip(i as int), b@.skip(i as int)),
        decreases na - i,
    {
        let ca = a.get_char(i);
        let cb = b.get_char(i);
        if ca != cb {
            return (ca as u32) < (cb as u32);
        }
        assert(a@.skip(i as int).drop_first() =~= a@.skip(i + 1));
        assert(b@.skip(i as int).drop_first() =~= b@.skip(i + 1));
        i = i + 1;
    }
    i < nb
}

} // verus!
