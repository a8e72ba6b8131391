//! Text helpers: lexicographic order on strings and decimal numerals.

use vstd::prelude::*;

verus! {

/// Lexicographic "less than" on character sequences. Since UTF-8 keeps code
/// point order, this is also the byte order that `String`'s `<` uses.
pub open spec fn seq_less(a: Seq<char>, b: Seq<char>) -> bool
    decreases a.len(),
{
    if a.len() == 0 {
        b.len() > 0
    } else if b.len() == 0 {
        false
    } else if a[0] != b[0] {
        a[0] < b[0]
    } else {
        seq_less(a.drop_first(), b.drop_first())
    }
}

/// Lexicographic order is irreflexive and, between distinct sequences, total.
pub proof fn lemma_seq_less_trichotomy(a: Seq<char>, b: Seq<char>)
    ensures
        !seq_less(a, a),
        a != b ==> (seq_less(a, b) || seq_less(b, a)),
        !(seq_less(a, b) && seq_less(b, a)),
    decreases a.len(),
{
    if a.len() > 0 {
        lemma_seq_less_trichotomy(a.drop_first(), a.drop_first());
    }
    if a.len() == 0 && b.len() == 0 {
        assert(a =~= b);
    }
    if a.len() > 0 && b.len() > 0 && a[0] == b[0] {
        lemma_seq_less_trichotomy(a.drop_first(), b.drop_first());
        if a.drop_first() == b.drop_first() {
            assert(a =~= seq![a[0]] + a.drop_first());
            assert(b =~= seq![b[0]] + b.drop_first());
        }
    }
}

proof fn lemma_seq_less_shift(a: Seq<char>, b: Seq<char>, i: int)
    requires
        0 <= i <= a.len(),
        i <= b.len(),
        a.take(i) == b.take(i),
    ensures
        seq_less(a, b) == seq_less(a.skip(i), b.skip(i)),
    decreases i,
{
    if i > 0 {
        assert(a[0] == a.take(i)[0]);
        assert(b[0] == b.take(i)[0]);
        assert(a.drop_first().take(i - 1) =~= a.take(i).drop_first());
        assert(b.drop_first().take(i - 1) =~= b.take(i).drop_first());
        lemma_seq_less_shift(a.drop_first(), b.drop_first(), i - 1);
        assert(a.drop_first().skip(i - 1) =~= a.skip(i));
        assert(b.drop_first().skip(i - 1) =~= b.skip(i));
    } else {
        assert(a.skip(0) =~= a);
        assert(b.skip(0) =~= b);
    }
}

/// Is `a` lexicographically before `b`?
pub fn str_less(a: &str, b: &str) -> (r: bool)
    ensures
        r == seq_less(a@, b@),
{
    let la = a.unicode_len();
    let lb = b.unicode_len();
    let mut i: usize = 0;
    while i < la && i < lb
        invariant
            la == a@.len(),
            lb == b@.len(),
            i <= la,
            i <= lb,
            a@.take(i as int) == b@.take(i as int),
        decreases la - i,
    {
        let ca = a.get_char(i);
        let cb = b.get_char(i);
        if ca != cb {
            proof {
                lemma_seq_less_shift(a@, b@, i as int);
                assert(a@.skip(i as int)[0] == ca);
                assert(b@.skip(i as int)[0] == cb);
            }
            return ca < cb;
        }
        assert(a@.take(i + 1) =~= a@.take(i as int).push(ca));
        assert(b@.take(i + 1) =~= b@.take(i as int).push(cb));
        i = i + 1;
    }
    proof {
        lemma_seq_less_shift(a@, b@, i as int);
    }
    i == la && i < lb
}

/// Decimal numeral of a natural number (no leading zeros; `"0"` for zero).
pub open spec fn decimal(n: nat) -> Seq<char>
    decreases n,
{
    if n < 10 {
        seq![digit_char(n)]
    } else {
        decimal(n / 10).push(digit_char(n % 10))
    }
}

/// The character of a decimal digit.
pub open spec fn digit_char(d: nat) -> char {
    if d == 0 {
        '0'
    } else if d == 1 {
        '1'
    } else if d == 2 {
        '2'
    } else if d == 3 {
        '3'
    } else if d == 4 {
        '4'
    } else if d == 5 {
        '5'
    } else if d == 6 {
        '6'
    } else if d == 7 {
        '7'
    } else if d == 8 {
        '8'
    } else {
        '9'
    }
}

fn digit(d: u64) -> (r: &'static str)
    requires
        d < 10,
    ensures
        r@ == seq![digit_char(d as nat)],
{
    if d == 0 {
        proof {
            reveal_strlit("0");
        }
        "0"
    } else if d == 1 {
        proof {
            reveal_strlit("1");
        }
        "1"
    } else if d == 2 {
        proof {
            reveal_strlit("2");
        }
        "2"
    } else if d == 3 {
        proof {
            reveal_strlit("3");
        }
        "3"
    } else if d == 4 {
        proof {
            reveal_strlit("4");
        }
        "4"
    } else if d == 5 {
        proof {
            reveal_strlit("5");
        }
        "5"
    } else if d == 6 {
        proof {
            reveal_strlit("6");
        }
        "6"
    } else if d == 7 {
        proof {
            reveal_strlit("7");
        }
        "7"
    } else if d == 8 {
        proof {
            reveal_strlit("8");
        }
        "8"
    } else {
        proof {
            reveal_strlit("9");
        }
        "9"
    }
}

/// Append the decimal numeral of `n` to `out`.
pub fn push_decimal(out: &mut String, n: u64)
    ensures
        final(out)@ == old(out)@ + decimal(n as nat),
    decreases n,
{
    if n < 10 {
        let c = digit(n);
        out.append(c);
    } else {
        push_decimal(out, n / 10);
        let c = digit(n % 10);
        out.append(c);
        assert(old(out)@ + decimal((n / 10) as nat) + c@ =~= old(out)@ + decimal(n as nat));
    }
}

/// Decimal numeral of an integer, with a leading `-` when it is negative.
pub open spec fn signed_decimal(n: int) -> Seq<char> {
    if n < 0 {
        seq!['-'] + decimal((-n) as nat)
    } else {
        decimal(n as nat)
    }
}

/// Append the decimal numeral of `n`, signed, to `out`.
pub fn push_signed(out: &mut String, n: i64)
    ensures
        final(out)@ == old(out)@ + signed_decimal(n as int),
{
    if n < 0 {
        proof {
            reveal_strlit("-");
        }
        out.append("-");
        let m: i128 = -(n as i128);
        let mag: u64 = m as u64;
        push_decimal(out, mag);
        assert(old(out)@ + seq!['-'] + decimal(mag as nat) =~= old(out)@ + signed_decimal(n as int));
    } else {
        push_decimal(out, n as u64);
    }
}

/// Lexicographic order is transitive.
pub proof fn lemma_seq_less_transitive(a: Seq<char>, b: Seq<char>, c: Seq<char>)
    requires
        seq_less(a, b),
        seq_less(b, c),
    ensures
        seq_less(a, c),
    decreases a.len(),
{
    if a.len() > 0 && b.len() > 0 && c.len() > 0 && a[0] == b[0] && b[0] == c[0] {
        lemma_seq_less_transitive(a.drop_first(), b.drop_first(), c.drop_first());
    }
}

/// The character sequences of a sequence of strings.
pub open spec fn views(s: Seq<String>) -> Seq<Seq<char>> {
    s.map_values(|x: String| x@)
}

/// The sequences are in strictly increasing lexicographic order.
pub open spec fn sorted_strictly(s: Seq<Seq<char>>) -> bool {
    forall|i: int, j: int| 0 <= i < j < s.len() ==> seq_less(#[trigger] s[i], #[trigger] s[j])
}

/// No two sequences are equal.
pub open spec fn all_distinct(s: Seq<Seq<char>>) -> bool {
    forall|i: int, j: int| 0 <= i < s.len() && 0 <= j < s.len() && i != j ==> #[trigger] s[i] != #[trigger] s[j]
}

/// Sort distinct strings into increasing lexicographic order.
pub fn sort_strings(v: Vec<String>) -> (r: Vec<String>)
    requires
        all_distinct(views(v@)),
    ensures
        r@.len() == v@.len(),
        sorted_strictly(views(r@)),
        forall|x: Seq<char>| views(r@).contains(x) <==> views(v@).contains(x),
{
    let mut out: Vec<String> = Vec::new();
    let mut i: usize = 0;
    while i < v.len()
        invariant
            i <= v@.len(),
            all_distinct(views(v@)),
            out@.len() == i,
            sorted_strictly(views(out@)),
            forall|x: Seq<char>| views(out@).contains(x) <==> views(v@.take(i as int)).contains(x),
        decreases v@.len() - i,
    {
        let s = v[i].clone();
        let ghost before = out@;
        proof {
            assert(!views(before).contains(s@)) by {
                if views(before).contains(s@) {
                    let w = choose|w: int| 0 <= w < views(v@.take(i as int)).len() && #[trigger] views(v@.take(i as int))[w] == s@;
                    assert(views(v@)[w] == views(v@)[i as int]);
                }
            }
        }
        let mut p: usize = 0;
        while p < out.len() && str_less(out[p].as_str(), s.as_str())
            invariant
                p <= out@.len(),
                out@ == before,
                forall|q: int| 0 <= q < p ==> seq_less((#[trigger] out@[q])@, s@),
            decreases out@.len() - p,
        {
            p = p + 1;
        }
        proof {
            if p < out@.len() {
                assert(!seq_less(out@[p as int]@, s@));
                assert(views(before)[p as int] == out@[p as int]@);
                lemma_seq_less_trichotomy(out@[p as int]@, s@);
                assert(seq_less(s@, out@[p as int]@));
            }
        }
        out.insert(p, s);
        proof {
            let nv = views(out@);
            assert(nv =~= views(before).take(p as int).push(s@) + views(before).skip(p as int));
            assert forall|a: int, b: int| 0 <= a < b < nv.len() implies seq_less(#[trigger] nv[a], #[trigger] nv[b]) by {
                if a < p && b < p {
                    assert(views(before)[a] == nv[a] && views(before)[b] == nv[b]);
                } else if a < p && b == p {
                    assert(seq_less(out@[a]@, s@));
                } else if a < p && b > p {
                    assert(seq_less(before[a]@, s@));
                    assert(views(before)[b - 1] == nv[b]);
                    if p < before.len() {
                        lemma_seq_less_transitive(before[a]@, s@, before[p as int]@);
                        if b - 1 > p {
                            assert(seq_less(views(before)[p as int], views(before)[b - 1]));
                            lemma_seq_less_transitive(before[a]@, before[p as int]@, before[b - 1]@);
                        }
                    }
                } else if a == p {
                    assert(nv[b] == views(before)[b - 1]);
                    if b - 1 > p {
                        assert(seq_less(views(before)[p as int], views(before)[b - 1]));
                        lemma_seq_less_transitive(s@, before[p as int]@, before[b - 1]@);
                    }
                } else {
                    assert(nv[a] == views(before)[a - 1] && nv[b] == views(before)[b - 1]);
                }
            }
            assert(v@.take(i + 1) =~= v@.take(i as int).push(v@[i as int]));
            assert(views(v@.take(i + 1)) =~= views(v@.take(i as int)).push(s@));
            assert forall|x: Seq<char>| nv.contains(x) <==> views(v@.take(i + 1)).contains(x) by {
                if nv.contains(x) {
                    let w = choose|w: int| 0 <= w < nv.len() && #[trigger] nv[w] == x;
                    if w < p {
                        assert(views(before)[w] == x);
                    } else if w > p {
                        assert(views(before)[w - 1] == x);
                    }
                    if x != s@ {
                        assert(views(before).contains(x));
                        assert(views(v@.take(i as int)).contains(x));
                        let w2 = choose|w2: int| 0 <= w2 < views(v@.take(i as int)).len() && #[trigger] views(v@.take(i as int))[w2] == x;
                        assert(views(v@.take(i + 1))[w2] == x);
                    } else {
                        assert(views(v@.take(i + 1))[i as int] == x);
                    }
                }
                if views(v@.take(i + 1)).contains(x) {
                    let w = choose|w: int| 0 <= w < views(v@.take(i + 1)).len() && #[trigger] views(v@.take(i + 1))[w] == x;
                    if w < i {
                        assert(views(v@.take(i as int))[w] == x);
                        assert(views(before).contains(x));
                        let w2 = choose|w2: int| 0 <= w2 < views(before).len() && #[trigger] views(before)[w2] == x;
                        if w2 < p {
                            assert(nv[w2] == x);
                        } else {
                            assert(nv[w2 + 1] == x);
                        }
                    } else {
                        assert(nv[p as int] == x);
                    }
                }
            }
        }
        i = i + 1;
    }
    proof {
        assert(v@.take(v@.len() as int) =~= v@);
    }
    out
}

} // verus!
