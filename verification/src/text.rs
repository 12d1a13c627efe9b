//! Decimal digits, decimal text, and the lexicographic order of texts.

use vstd::prelude::*;

verus! {

/// Whether a byte is an ASCII decimal digit.
pub open spec fn is_digit(b: u8) -> bool {
    48 <= b <= 57
}

/// Whether every byte of `s` is an ASCII decimal digit.
pub open spec fn all_digits(s: Seq<u8>) -> bool {
    forall|i: int| 0 <= i < s.len() ==> is_digit(#[trigger] s[i])
}

/// The number that a run of ASCII decimal digits spells, most significant first.
pub open spec fn dec_value(s: Seq<u8>) -> nat
    decreases s.len(),
{
    if s.len() == 0 {
        0
    } else {
        dec_value(s.drop_last()) * 10 + (s.last() - 48) as nat
    }
}

/// The character of decimal digit `d`.
pub open spec fn digit_char(d: int) -> char {
    ((48 + d) as u8) as char
}

/// The decimal text of `n`, without leading zeros.
pub open spec fn dec_text(n: nat) -> Seq<char>
    decreases n,
{
    if n < 10 {
        seq![digit_char(n as int)]
    } else {
        dec_text(n / 10).push(digit_char((n % 10) as int))
    }
}

/// The bytes of an ASCII text.
pub open spec fn ascii_bytes(t: Seq<char>) -> Seq<u8> {
    t.map_values(|c: char| c as u8)
}

/// `dec_value` of a digit run extended by one digit.
pub proof fn lemma_dec_value_push(s: Seq<u8>, b: u8)
    ensures
        dec_value(s.push(b)) == dec_value(s) * 10 + (b - 48) as nat,
{
    assert(s.push(b).drop_last() =~= s);
}

/// The decimal text of `n` is a run of digits without a leading zero that
/// spells `n`; below 1000 it has at most three digits.
pub proof fn lemma_dec_text(n: nat)
    ensures
        ascii_bytes(dec_text(n)).len() == dec_text(n).len(),
        dec_text(n).len() >= 1,
        all_digits(ascii_bytes(dec_text(n))),
        dec_value(ascii_bytes(dec_text(n))) == n,
        ascii_bytes(dec_text(n))[0] == 48 ==> n == 0,
        forall|i: int| 0 <= i < dec_text(n).len() ==> '0' <= #[trigger] dec_text(n)[i] <= '9',
        n < 10 ==> dec_text(n).len() == 1,
        n < 100 ==> dec_text(n).len() <= 2,
        n < 1000 ==> dec_text(n).len() <= 3,
    decreases n,
{
    if n < 10 {
        let t = ascii_bytes(dec_text(n));
        assert(t[0] == 48 + n);
        assert(t.drop_last() =~= Seq::<u8>::empty());
        assert(dec_value(t) == dec_value(t.drop_last()) * 10 + (t.last() - 48) as nat);
    } else {
        lemma_dec_text(n / 10);
        let p = dec_text(n / 10);
        let c = digit_char((n % 10) as int);
        assert(ascii_bytes(p.push(c)) =~= ascii_bytes(p).push(c as u8));
        lemma_dec_value_push(ascii_bytes(p), c as u8);
        assert(c as u8 == 48 + n % 10);
        assert((n / 10) * 10 + n % 10 == n);
        assert(ascii_bytes(p.push(c))[0] == ascii_bytes(p)[0]);
    }
}

/// Appends the decimal text of `n`.
pub fn push_decimal(out: &mut Vec<char>, n: u64)
    ensures
        final(out)@ == old(out)@ + dec_text(n as nat),
    decreases n,
{
    if n >= 10 {
        push_decimal(out, n / 10);
    }
    let d: u64 = n % 10;
    out.push(((48 + d) as u8) as char);
    proof {
        if n < 10 {
            assert(dec_text(n as nat) =~= seq![digit_char(n as int)]);
        }
    }
    assert(final(out)@ =~= old(out)@ + dec_text(n as nat));
}


/// Strict lexicographic order of texts, the order in which `String`s sort.
pub open spec fn lex_lt(a: Seq<char>, b: Seq<char>) -> bool
    decreases a.len(),
{
    if a.len() == 0 {
        b.len() > 0
    } else if b.len() == 0 {
        false
    } else if a[0] != b[0] {
        a[0] < b[0]
    } else {
        lex_lt(a.drop_first(), b.drop_first())
    }
}

/// Each text sorts strictly before every later one.
pub open spec fn strictly_sorted(s: Seq<Seq<char>>) -> bool {
    forall|i: int, j: int| 0 <= i < j < s.len() ==> lex_lt(#[trigger] s[i], #[trigger] s[j])
}

/// The texts held by a vector of character vectors.
pub open spec fn texts(v: Seq<Vec<char>>) -> Seq<Seq<char>> {
    v.map_values(|t: Vec<char>| t@)
}

/// The order is the order of `String`s: a proper prefix sorts first, and
/// texts that agree before position `i` and differ at `i` sort by their
/// characters at `i`.
pub proof fn lemma_lex_is_string_order(t: Seq<char>, u: Seq<char>, a: Seq<char>, b: Seq<char>, i: int)
    ensures
        u.len() > 0 ==> lex_lt(t, t + u) && !lex_lt(t + u, t),
        (0 <= i < a.len() && i < b.len() && a[i] != b[i] && forall|j: int|
            0 <= j < i ==> a[j] == b[j]) ==> (lex_lt(a, b) <==> a[i] < b[i]),
    decreases t.len() + a.len(),
{
    if u.len() > 0 && t.len() > 0 {
        assert((t + u).drop_first() =~= t.drop_first() + u);
        assert((t + u)[0] == t[0]);
        lemma_lex_is_string_order(t.drop_first(), u, Seq::empty(), Seq::empty(), 0);
    }
    if u.len() > 0 && t.len() == 0 {
        assert(t + u =~= u);
    }
    if 0 <= i < a.len() && i < b.len() && a[i] != b[i] && forall|j: int| 0 <= j < i ==> a[j] == b[j] {
        if i > 0 {
            assert(a[0] == b[0]);
            assert forall|j: int| 0 <= j < i - 1 implies a.drop_first()[j] == b.drop_first()[j] by {
                assert(a[j + 1] == b[j + 1]);
            }
            lemma_lex_is_string_order(Seq::empty(), Seq::empty(), a.drop_first(), b.drop_first(), i - 1);
        }
    }
}

/// The lexicographic order is transitive.
pub proof fn lemma_lex_transitive(a: Seq<char>, b: Seq<char>, c: Seq<char>)
    requires
        lex_lt(a, b),
        lex_lt(b, c),
    ensures
        lex_lt(a, c),
    decreases a.len(),
{
    if a.len() > 0 && b.len() > 0 && c.len() > 0 && a[0] == b[0] && b[0] == c[0] {
        lemma_lex_transitive(a.drop_first(), b.drop_first(), c.drop_first());
    }
}

/// Of two different texts, one sorts before the other.
pub proof fn lemma_lex_total(a: Seq<char>, b: Seq<char>)
    ensures
        a != b ==> lex_lt(a, b) || lex_lt(b, a),
    decreases a.len(),
{
    if a.len() > 0 && b.len() > 0 && a[0] == b[0] {
        lemma_lex_total(a.drop_first(), b.drop_first());
        if a.drop_first() == b.drop_first() {
            assert forall|i: int| 0 <= i < a.len() implies a[i] == b[i] by {
                if i > 0 {
                    assert(a[i] == a.drop_first()[i - 1]);
                    assert(b[i] == b.drop_first()[i - 1]);
                }
            }
            assert(a =~= b);
        }
    } else if a.len() == 0 && b.len() == 0 {
        assert(a =~= b);
    }
}

/// Whether `a` sorts strictly before `b`.
pub fn lex_less(a: &Vec<char>, b: &Vec<char>) -> (r: bool)
    ensures
        r == lex_lt(a@, b@),
{
    let mut i: usize = 0;
    assert(a@.skip(0) =~= a@);
    assert(b@.skip(0) =~= b@);
    while i < a.len() && i < b.len()
        invariant
            i <= a.len(),
            i <= b.len(),
            lex_lt(a@, b@) == lex_lt(a@.skip(i as int), b@.skip(i as int)),
        decreases a.len() - i,
    {
        if a[i] != b[i] {
            return a[i] < b[i];
        }
        assert(a@.skip(i as int).drop_first() =~= a@.skip(i + 1));
        assert(b@.skip(i as int).drop_first() =~= b@.skip(i + 1));
        i += 1;
    }
    i < b.len()
}

/// Inserts `x` into a strictly sorted vector of texts, keeping it strictly
/// sorted; a text already there is not inserted again.
pub fn insert_sorted(v: &mut Vec<Vec<char>>, x: Vec<char>)
    requires
        strictly_sorted(texts(old(v)@)),
    ensures
        strictly_sorted(texts(final(v)@)),
        forall|t: Seq<char>|
            texts(final(v)@).contains(t) <==> (texts(old(v)@).contains(t) || t == x@),
{
    let ghost old_t = texts(v@);
    let mut i: usize = 0;
    while i < v.len() && lex_less(&v[i], &x)
        invariant
            i <= v.len(),
            v@ == old(v)@,
            old_t == texts(v@),
            strictly_sorted(old_t),
            forall|j: int| 0 <= j < i ==> lex_lt(#[trigger] old_t[j], x@),
        decreases v.len() - i,
    {
        i += 1;
    }
    if i < v.len() && !lex_less(&x, &v[i]) {
        proof {
            lemma_lex_total(old_t[i as int], x@);
        }
        assert(old_t[i as int] == x@);
        return;
    }
    proof {
        assert forall|k: int| i <= k < old_t.len() implies lex_lt(x@, #[trigger] old_t[k]) by {
            if k > i {
                lemma_lex_transitive(x@, old_t[i as int], old_t[k]);
            }
        }
    }
    let ghost xv = x@;
    v.insert(i, x);
    let ghost new_t = texts(v@);
    assert(new_t =~= old_t.insert(i as int, xv));
    assert forall|p: int, q: int| 0 <= p < q < new_t.len() implies lex_lt(
        #[trigger] new_t[p],
        #[trigger] new_t[q],
    ) by {
        if q < i {
        } else if q == i {
        } else if p < i {
            lemma_lex_transitive(old_t[p], xv, old_t[q - 1]);
        } else if p == i {
        } else {
            assert(new_t[p] == old_t[p - 1]);
        }
    }
    assert forall|t: Seq<char>| new_t.contains(t) <==> (old_t.contains(t) || t == xv) by {
        if new_t.contains(t) {
            let k = choose|k: int| 0 <= k < new_t.len() && new_t[k] == t;
            if k < i {
                assert(old_t[k] == t);
            } else if k > i {
                assert(old_t[k - 1] == t);
            }
        }
        if old_t.contains(t) {
            let k = choose|k: int| 0 <= k < old_t.len() && old_t[k] == t;
            if k < i {
                assert(new_t[k] == t);
            } else {
                assert(new_t[k + 1] == t);
            }
        }
        if t == xv {
            assert(new_t[i as int] == t);
        }
    }
}


/// Calls `String::from_iter` over the characters: the string holds exactly
/// them, in order.
#[verifier::external_body]
pub(crate) fn string_from_chars(v: &Vec<char>) -> (s: String)
    ensures
        s@ == v@,
{
    String::from_iter(v.iter())
}

/// The bytes of a concatenation of ASCII texts.
pub proof fn lemma_ascii_bytes_add(u: Seq<char>, v: Seq<char>)
    ensures
        ascii_bytes(u + v) == ascii_bytes(u) + ascii_bytes(v),
{
    assert(ascii_bytes(u + v) =~= ascii_bytes(u) + ascii_bytes(v));
}

/// A run of digits without a leading zero is the decimal text of its value.
pub proof fn lemma_canonical_digits(p: Seq<u8>)
    requires
        p.len() >= 1,
        all_digits(p),
        p[0] == 48 ==> p.len() == 1,
    ensures
        ascii_bytes(dec_text(dec_value(p))) == p,
        p[0] != 48 ==> dec_value(p) >= 1,
    decreases p.len(),
{
    let q = p.drop_last();
    assert(is_digit(p[p.len() - 1]));
    if p.len() == 1 {
        assert(q =~= Seq::<u8>::empty());
        let d = dec_value(p);
        assert(dec_value(q) == 0);
        assert(p.last() == p[0]);
        assert(d == p[0] - 48);
        assert(ascii_bytes(dec_text(d)) =~= p);
    } else {
        assert forall|i: int| 0 <= i < q.len() implies is_digit(#[trigger] q[i]) by {
            assert(q[i] == p[i]);
        }
        assert(q[0] == p[0]);
        lemma_canonical_digits(q);
        let v = dec_value(p);
        let d = p.last() - 48;
        assert(v == dec_value(q) * 10 + d);
        assert(v / 10 == dec_value(q) && v % 10 == d);
        let t = dec_text(dec_value(q));
        assert(dec_text(v) == t.push(digit_char(d)));
        assert(ascii_bytes(t.push(digit_char(d))) =~= ascii_bytes(t).push(digit_char(d) as u8));
        assert(ascii_bytes(dec_text(v)) =~= p);
    }
}

} // verus!
