//! JSON pointers (RFC 6901) as `serde_json` resolves them, and why the
//! pointer of an index entry reaches the child it lists.
use vstd::prelude::*;

use crate::json::{child_pointer, children, JsonV};
use crate::text::{
    decimal, digit_char, escape_token, lemma_escape_round_trip, lemma_seq_less_irreflexive,
    seq_less, unescape_token,
};

verus! {

/// The value of the first member of `fields` with key `key`.
pub open spec fn member(fields: Seq<(Seq<char>, JsonV)>, key: Seq<char>) -> Option<JsonV>
    decreases fields.len(),
{
    if fields.len() == 0 {
        None
    } else if fields[0].0 == key {
        Some(fields[0].1)
    } else {
        member(fields.drop_first(), key)
    }
}

/// A document as `serde_json` holds it: each object's keys strictly
/// increasing (the order of its `BTreeMap`, so each key once), no number
/// written by this library, and no array longer than a `Vec` can be.
pub open spec fn canonical(v: JsonV) -> bool
    decreases v,
{
    match v {
        JsonV::Unsigned(_) => false,
        JsonV::Array(items) => {
            &&& items.len() <= usize::MAX
            &&& forall|i: int| 0 <= i < items.len() ==> canonical(#[trigger] items[i])
        },
        JsonV::Object(fields) => {
            &&& forall|i: int, j: int|
                0 <= i < j < fields.len() ==> seq_less(#[trigger] fields[i].0, #[trigger] fields[j].0)
            &&& forall|i: int| 0 <= i < fields.len() ==> canonical(#[trigger] fields[i].1)
        },
        _ => true,
    }
}

/// The pieces of `p` between its slashes, in order (`str::split('/')`).
pub open spec fn split_slash(p: Seq<char>) -> Seq<Seq<char>>
    decreases p.len(),
{
    if p.len() == 0 {
        seq![Seq::empty()]
    } else {
        let rest = split_slash(p.drop_first());
        if p[0] == '/' {
            seq![Seq::<char>::empty()] + rest
        } else {
            rest.update(0, seq![p[0]] + rest[0])
        }
    }
}

/// The value of a decimal digit.
pub open spec fn digit_value(c: char) -> Option<nat> {
    if c == '0' {
        Some(0)
    } else if c == '1' {
        Some(1)
    } else if c == '2' {
        Some(2)
    } else if c == '3' {
        Some(3)
    } else if c == '4' {
        Some(4)
    } else if c == '5' {
        Some(5)
    } else if c == '6' {
        Some(6)
    } else if c == '7' {
        Some(7)
    } else if c == '8' {
        Some(8)
    } else if c == '9' {
        Some(9)
    } else {
        None
    }
}

/// The number that the decimal digits `t` write.
pub open spec fn digits_value(t: Seq<char>) -> nat
    decreases t.len(),
{
    if t.len() == 0 {
        0
    } else {
        10 * digits_value(t.drop_last()) + match digit_value(t.last()) {
            Some(d) => d,
            None => 0,
        }
    }
}

/// The array index that a token names (`serde_json`'s `parse_index`): a
/// non-empty run of decimal digits, with no sign and no leading zero, whose
/// value fits a `usize`.
pub open spec fn array_index(t: Seq<char>) -> Option<nat> {
    if t.len() > 0 && (forall|i: int| 0 <= i < t.len() ==> #[trigger] digit_value(t[i]) is Some) && (
    t[0] == '0' ==> t.len() == 1) && digits_value(t) <= usize::MAX {
        Some(digits_value(t))
    } else {
        None
    }
}

/// One step of a pointer: the member of an object with the unescaped token
/// as its key, or the item of an array at the index it names.
pub open spec fn pointer_step(v: JsonV, token: Seq<char>) -> Option<JsonV> {
    let key = unescape_token(token);
    match v {
        JsonV::Object(fields) => member(fields, key),
        JsonV::Array(items) => match array_index(key) {
            Some(i) => if i < items.len() {
                Some(items[i as int])
            } else {
                None
            },
            None => None,
        },
        _ => None,
    }
}

/// The value reached from `v` by the steps of `tokens`, in order.
pub open spec fn resolve(v: JsonV, tokens: Seq<Seq<char>>) -> Option<JsonV>
    decreases tokens.len(),
{
    if tokens.len() == 0 {
        Some(v)
    } else {
        match resolve(v, tokens.drop_last()) {
            Some(w) => pointer_step(w, tokens.last()),
            None => None,
        }
    }
}

/// The value that a JSON pointer addresses in `root`: the empty pointer
/// addresses `root`; another one starts with `/`, and each piece after it
/// is a step.
pub open spec fn pointer_target(root: JsonV, pointer: Seq<char>) -> Option<JsonV> {
    if pointer.len() == 0 {
        Some(root)
    } else if pointer[0] != '/' {
        None
    } else {
        resolve(root, split_slash(pointer.drop_first()))
    }
}

/// A text with no `/` is one piece.
proof fn lemma_split_no_slash(b: Seq<char>)
    requires
        !b.contains('/'),
    ensures
        split_slash(b) == seq![b],
    decreases b.len(),
{
    if b.len() > 0 {
        assert(!b.drop_first().contains('/')) by {
            if b.drop_first().contains('/') {
                let j = choose|j: int| 0 <= j < b.drop_first().len() && b.drop_first()[j] == '/';
                assert(b[j + 1] == '/');
            }
        }
        lemma_split_no_slash(b.drop_first());
        assert(b[0] != '/');
        assert(seq![b[0]] + b.drop_first() =~= b);
        assert(split_slash(b) =~= seq![b]);
    } else {
        assert(b =~= Seq::<char>::empty());
    }
}

/// Appending `/` and a text with no `/` appends one piece.
proof fn lemma_split_append(a: Seq<char>, b: Seq<char>)
    requires
        !b.contains('/'),
    ensures
        split_slash(a + seq!['/'] + b) == split_slash(a).push(b),
    decreases a.len(),
{
    let whole = a + seq!['/'] + b;
    if a.len() == 0 {
        assert(whole.drop_first() =~= b);
        lemma_split_no_slash(b);
        assert(split_slash(whole) =~= split_slash(a).push(b));
    } else {
        assert(whole.drop_first() =~= a.drop_first() + seq!['/'] + b);
        lemma_split_append(a.drop_first(), b);
        lemma_split_len(a.drop_first());
        assert(split_slash(whole) =~= split_slash(a).push(b));
    }
}

/// A text splits into at least one piece.
proof fn lemma_split_len(a: Seq<char>)
    ensures
        split_slash(a).len() >= 1,
    decreases a.len(),
{
    if a.len() > 0 {
        lemma_split_len(a.drop_first());
    }
}

/// The first member with a key is found by it, where keys are strictly
/// increasing.
proof fn lemma_member_sorted(fields: Seq<(Seq<char>, JsonV)>, i: int)
    requires
        0 <= i < fields.len(),
        forall|a: int, b: int|
            0 <= a < b < fields.len() ==> seq_less(#[trigger] fields[a].0, #[trigger] fields[b].0),
    ensures
        member(fields, fields[i].0) == Some(fields[i].1),
    decreases i,
{
    if i > 0 {
        assert(fields[0].0 != fields[i].0) by {
            assert(seq_less(fields[0].0, fields[i].0));
            lemma_seq_less_irreflexive(fields[i].0);
        }
        let rest = fields.drop_first();
        assert(rest[i - 1] == fields[i]);
        assert forall|a: int, b: int| 0 <= a < b < rest.len() implies seq_less(
            #[trigger] rest[a].0,
            #[trigger] rest[b].0,
        ) by {
            assert(rest[a] == fields[a + 1] && rest[b] == fields[b + 1]);
        }
        lemma_member_sorted(rest, i - 1);
    }
}

/// A member that is found is one of the members.
proof fn lemma_member_is_member(fields: Seq<(Seq<char>, JsonV)>, key: Seq<char>)
    requires
        member(fields, key) is Some,
    ensures
        exists|i: int| 0 <= i < fields.len() && member(fields, key) == Some(#[trigger] fields[i].1),
    decreases fields.len(),
{
    if fields[0].0 != key {
        lemma_member_is_member(fields.drop_first(), key);
        let i = choose|i: int|
            0 <= i < fields.drop_first().len() && member(fields.drop_first(), key) == Some(
                #[trigger] fields.drop_first()[i].1,
            );
        assert(fields[i + 1] == fields.drop_first()[i]);
    }
}

/// Every value reached from a canonical document is canonical.
proof fn lemma_resolve_canonical(v: JsonV, tokens: Seq<Seq<char>>)
    requires
        canonical(v),
        resolve(v, tokens) is Some,
    ensures
        canonical(resolve(v, tokens)->0),
    decreases tokens.len(),
{
    if tokens.len() > 0 {
        lemma_resolve_canonical(v, tokens.drop_last());
        let w = resolve(v, tokens.drop_last())->0;
        match w {
            JsonV::Object(fields) => {
                lemma_member_is_member(fields, unescape_token(tokens.last()));
            },
            _ => {},
        }
    }
}

/// The digits of a numeral read back as its number; only the numeral of
/// zero starts with `0`.
proof fn lemma_decimal_digits(n: nat)
    ensures
        decimal(n).len() > 0,
        forall|i: int| 0 <= i < decimal(n).len() ==> #[trigger] digit_value(decimal(n)[i]) is Some,
        digits_value(decimal(n)) == n,
        decimal(n)[0] == '0' ==> n == 0,
        n == 0 ==> decimal(n).len() == 1,
    decreases n,
{
    if n < 10 {
        let s = decimal(n);
        assert(s.drop_last() =~= Seq::<char>::empty());
        assert(digits_value(s.drop_last()) == 0);
        assert(s.last() == digit_char(n));
        assert(digit_value(digit_char(n)) == Some(n));
    } else {
        let m = n / 10;
        lemma_decimal_digits(m);
        let s = decimal(n);
        assert(s == decimal(m).push(digit_char(n % 10)));
        assert(s.drop_last() =~= decimal(m));
        assert(digit_value(digit_char((n % 10) as nat)) == Some((n % 10) as nat));
        assert(s.last() == digit_char((n % 10) as nat));
        assert(digits_value(s) == 10 * m + n % 10);
        assert(10 * m + n % 10 == n);
        assert(s[0] == decimal(m)[0]);
        assert forall|i: int| 0 <= i < s.len() implies #[trigger] digit_value(s[i]) is Some by {
            if i < s.len() - 1 {
                assert(s[i] == decimal(m)[i]);
            }
        }
    }
}

/// The numeral of an index that fits a `usize` names that index.
proof fn lemma_decimal_index(n: nat)
    requires
        n <= usize::MAX,
    ensures
        array_index(decimal(n)) == Some(n),
{
    lemma_decimal_digits(n);
}

/// The pointer of a child of the value at `pointer` reaches that child: in
/// a canonical document, appending `/` and the child's key, escaped,
/// addresses the member with that key or the item at that index.
pub proof fn lemma_child_pointer_reaches_child(root: JsonV, pointer: Seq<char>, i: int)
    requires
        canonical(root),
        pointer_target(root, pointer) is Some,
        0 <= i < children(pointer_target(root, pointer)->0).len(),
    ensures
        pointer_target(
            root,
            child_pointer(pointer, children(pointer_target(root, pointer)->0)[i].0),
        ) == Some(children(pointer_target(root, pointer)->0)[i].1),
{
    let v = pointer_target(root, pointer)->0;
    let key = children(v)[i].0;
    let token = escape_token(key);
    lemma_escape_round_trip(key);
    let cp = child_pointer(pointer, key);
    assert(cp[pointer.len() as int] == '/');
    if pointer.len() == 0 {
        assert(cp.drop_first() =~= token);
        lemma_split_no_slash(token);
        assert(seq![token].drop_last() =~= Seq::<Seq<char>>::empty());
        assert(resolve(root, seq![token].drop_last()) == Some(root));
        assert(seq![token].last() == token);
        assert(resolve(root, seq![token]) == pointer_step(root, token));
        assert(canonical(v));
    } else {
        let rest = pointer.drop_first();
        assert(cp.drop_first() =~= rest + seq!['/'] + token);
        lemma_split_append(rest, token);
        assert(split_slash(rest).push(token).drop_last() =~= split_slash(rest));
        lemma_resolve_canonical(root, split_slash(rest));
    }
    assert(pointer_target(root, cp) == pointer_step(v, token));
    match v {
        JsonV::Object(fields) => {
            lemma_member_sorted(fields, i);
        },
        JsonV::Array(items) => {
            lemma_decimal_index(i as nat);
        },
        _ => {},
    }
}

} // verus!
