//! Small text helpers: decimal rendering of integers, ASCII
//! case-insensitive comparison and the diagnostic labels built from them.
use vstd::prelude::*;

use crate::geom::Pos3;

verus! {

/// The decimal digit character of `d` (for `d < 10`).
pub open spec fn digit_char(d: nat) -> char {
    ((48 + d) as u8) as char
}

/// Decimal rendering of a natural number, most significant digit first,
/// without leading zeros (`"0"` for zero).
pub open spec fn decimal(n: nat) -> Seq<char>
    decreases n,
{
    if n < 10 {
        seq![digit_char(n)]
    } else {
        decimal(n / 10).push(digit_char(n % 10))
    }
}

/// Decimal rendering of a signed integer (`-` prefix for negatives).
pub open spec fn signed_decimal(n: int) -> Seq<char> {
    if n < 0 {
        seq!['-'] + decimal((-n) as nat)
    } else {
        decimal(n as nat)
    }
}

/// `c` with ASCII upper-case letters mapped to lower case.
pub open spec fn ascii_lower(c: char) -> char {
    if 'A' <= c <= 'Z' { ((c as u32) + 32) as char } else { c }
}

/// ASCII case-insensitive equality of two character sequences.
pub open spec fn ascii_ci_eq(a: Seq<char>, b: Seq<char>) -> bool {
    a.len() == b.len() && forall|i: int| 0 <= i < a.len() ==> ascii_lower(a[i]) == ascii_lower(b[i])
}

/// The one-character string of decimal digit `d`.
fn digit_str(d: u64) -> (r: &'static str)
    requires
        d < 10,
    ensures
        r@ == seq![digit_char(d as nat)],
{
    proof {
        reveal_strlit("0");
        reveal_strlit("1");
        reveal_strlit("2");
        reveal_strlit("3");
        reveal_strlit("4");
        reveal_strlit("5");
        reveal_strlit("6");
        reveal_strlit("7");
        reveal_strlit("8");
        reveal_strlit("9");
    }
    if d == 0 {
        "0"
    } else if d == 1 {
        "1"
    } else if d == 2 {
        "2"
    } else if d == 3 {
        "3"
    } else if d == 4 {
        "4"
    } else if d == 5 {
        "5"
    } else if d == 6 {
        "6"
    } else if d == 7 {
        "7"
    } else if d == 8 {
        "8"
    } else {
        "9"
    }
}

/// Decimal rendering of `n`, most significant digit first.
pub(crate) fn u64_to_string(n: u64) -> (s: String)
    ensures
        s@ == decimal(n as nat),
    decreases n,
{
    if n < 10 {
        String::from_str(digit_str(n))
    } else {
        let mut s = u64_to_string(n / 10);
        s.append(digit_str(n % 10));
        s
    }
}

/// Decimal rendering of `n`, with a `-` in front of a negative number.
pub(crate) fn i64_to_string(n: i64) -> (s: String)
    ensures
        s@ == signed_decimal(n as int),
{
    if n < 0 {
        let m: u64 = if n == i64::MIN {
            9223372036854775808u64
        } else {
            (-n) as u64
        };
        let mut s = String::from_str("-");
        proof {
            reveal_strlit("-");
        }
        let digits = u64_to_string(m);
        s.append(digits.as_str());
        s
    } else {
        u64_to_string(n as u64)
    }
}

/// `str::eq_ignore_ascii_case`: equal lengths and equal characters after
/// mapping ASCII letters to lower case.
#[verifier::external_body]
pub(crate) fn eq_ignore_ascii_case(a: &str, b: &str) -> (r: bool)
    ensures
        r == ascii_ci_eq(a@, b@),
{
    a.eq_ignore_ascii_case(b)
}

/// Lexicographic order of character sequences by code point (the order
/// of `String`'s `Ord`).
pub open spec fn chars_le(a: Seq<char>, b: Seq<char>) -> bool
    decreases a.len(),
{
    if a.len() == 0 {
        true
    } else if b.len() == 0 {
        false
    } else if a[0] != b[0] {
        (a[0] as int) < (b[0] as int)
    } else {
        chars_le(a.drop_first(), b.drop_first())
    }
}

/// The character sequences of a vector of strings.
pub open spec fn string_views(v: Seq<String>) -> Seq<Seq<char>> {
    v.map_values(|s: String| s@)
}

/// `chars_le` is total.
proof fn lemma_chars_le_total(a: Seq<char>, b: Seq<char>)
    ensures
        chars_le(a, b) || chars_le(b, a),
    decreases a.len(),
{
    if a.len() > 0 && b.len() > 0 {
        if a[0] == b[0] {
            lemma_chars_le_total(a.drop_first(), b.drop_first());
        } else {
            assert((a[0] as int) != (b[0] as int));
        }
    }
}

/// `chars_le` is transitive.
proof fn lemma_chars_le_trans(a: Seq<char>, b: Seq<char>, c: Seq<char>)
    requires
        chars_le(a, b),
        chars_le(b, c),
    ensures
        chars_le(a, c),
    decreases a.len(),
{
    if a.len() > 0 && b.len() > 0 && c.len() > 0 && a[0] == b[0] && b[0] == c[0] {
        lemma_chars_le_trans(a.drop_first(), b.drop_first(), c.drop_first());
    }
}

/// Whether `a` orders at or before `b` in code-point order.
fn str_le(a: &str, b: &str) -> (r: bool)
    ensures
        r == chars_le(a@, b@),
{
    let la = a.unicode_len();
    let lb = b.unicode_len();
    let mut i: usize = 0;
    proof {
        assert(a@.skip(0) =~= a@);
        assert(b@.skip(0) =~= b@);
    }
    while i < la && i < lb && a.get_char(i) == b.get_char(i)
        invariant
            la == a@.len(),
            lb == b@.len(),
            i <= la,
            i <= lb,
            chars_le(a@, b@) == chars_le(a@.skip(i as int), b@.skip(i as int)),
        decreases la - i,
    {
        proof {
            assert(a@.skip(i as int).drop_first() =~= a@.skip(i as int + 1));
            assert(b@.skip(i as int).drop_first() =~= b@.skip(i as int + 1));
        }
        i += 1;
    }
    if i == la {
        true
    } else if i == lb {
        false
    } else {
        (a.get_char(i) as u32) < (b.get_char(i) as u32)
    }
}

/// Sorts the strings ascending in code-point order (the order of
/// `String`'s `Ord`): the same strings, in order.
pub(crate) fn sort_strings(v: &mut Vec<String>)
    ensures
        string_views(final(v)@).to_multiset() == string_views(old(v)@).to_multiset(),
        forall|i: int, j: int|
            0 <= i < j < final(v)@.len() ==> chars_le(final(v)@[i]@, final(v)@[j]@),
{
    let mut src: Vec<String> = Vec::new();
    std::mem::swap(&mut src, v);
    let ghost orig = string_views(src@);
    let mut out: Vec<String> = Vec::new();
    proof {
        broadcast use vstd::multiset::group_multiset_axioms;

        vstd::seq_lib::to_multiset_len(string_views(out@));
        vstd::multiset::lemma_multiset_empty_len(string_views(out@).to_multiset());
        assert(string_views(out@).to_multiset().add(string_views(src@).to_multiset()) =~= orig.to_multiset());
    }
    while src.len() > 0
        invariant
            string_views(out@).to_multiset().add(string_views(src@).to_multiset()) == orig.to_multiset(),
            forall|i: int, j: int| 0 <= i < j < out@.len() ==> chars_le(out@[i]@, out@[j]@),
        decreases src@.len(),
    {
        let ghost src0 = src@;
        let x = match src.pop() {
            Some(x) => x,
            None => {
                proof {
                    assert(false);
                }
                String::new()
            },
        };
        let mut k: usize = 0;
        while k < out.len() && str_le(out[k].as_str(), x.as_str())
            invariant
                k <= out@.len(),
                forall|a: int| 0 <= a < k ==> chars_le(out@[a]@, x@),
            decreases out@.len() - k,
        {
            k += 1;
        }
        proof {
            if k < out@.len() {
                assert(!chars_le(out@[k as int]@, x@));
                lemma_chars_le_total(out@[k as int]@, x@);
            }
        }
        let ghost before = out@;
        out.insert(k, x);
        proof {
            assert(string_views(out@) =~= string_views(before).insert(k as int, x@));
            vstd::seq_lib::to_multiset_insert(string_views(before), k as int, x@);
            assert(src0 =~= src@.push(x));
            assert(string_views(src0) =~= string_views(src@).push(x@));
            vstd::seq_lib::to_multiset_build(string_views(src@), x@);
            assert(string_views(out@).to_multiset().add(string_views(src@).to_multiset()) =~= orig.to_multiset());
            assert forall|a: int, b: int| 0 <= a < b < out@.len() implies chars_le(out@[a]@, out@[b]@) by {
                if b == k as int {
                    assert(out@[a] == before[a]);
                } else if a == k as int {
                    assert(out@[b] == before[b - 1]);
                    if k as int != b - 1 {
                        lemma_chars_le_trans(x@, before[k as int]@, before[b - 1]@);
                    }
                } else {
                    let a0 = if a < k { a } else { a - 1 };
                    let b0 = if b < k { b } else { b - 1 };
                    assert(out@[a] == before[a0] && out@[b] == before[b0]);
                }
            }
        }
    }
    proof {
        broadcast use vstd::multiset::group_multiset_axioms;

        vstd::seq_lib::to_multiset_len(string_views(src@));
        vstd::multiset::lemma_multiset_empty_len(string_views(src@).to_multiset());
        assert(string_views(out@).to_multiset() =~= orig.to_multiset());
    }
    *v = out;
}

/// `chars_le` is antisymmetric.
pub proof fn lemma_chars_le_antisym(a: Seq<char>, b: Seq<char>)
    requires
        chars_le(a, b),
        chars_le(b, a),
    ensures
        a == b,
    decreases a.len(),
{
    if a.len() > 0 && b.len() > 0 {
        lemma_chars_le_antisym(a.drop_first(), b.drop_first());
        assert(a =~= seq![a[0]] + a.drop_first());
        assert(b =~= seq![b[0]] + b.drop_first());
    }
}

/// Two sequences with the same elements counted with multiplicity have
/// the same set of elements.
pub proof fn lemma_same_multiset_same_set<A>(a: Seq<A>, b: Seq<A>)
    requires
        a.to_multiset() == b.to_multiset(),
    ensures
        a.to_set() == b.to_set(),
{
    assert forall|x: A| a.to_set().contains(x) <==> b.to_set().contains(x) by {
        vstd::seq_lib::to_multiset_contains(a, x);
        vstd::seq_lib::to_multiset_contains(b, x);
    }
    assert(a.to_set() =~= b.to_set());
}

/// `s` is in ascending order without repeats.
pub open spec fn strictly_sorted(s: Seq<Seq<char>>) -> bool {
    &&& s.no_duplicates()
    &&& forall|i: int, j: int| 0 <= i < j < s.len() ==> chars_le(s[i], s[j])
}

/// Removes the repeats from a sorted vector of strings: the result holds
/// the same strings, each once, in ascending order.
pub fn dedup_sorted(v: Vec<String>) -> (out: Vec<String>)
    requires
        forall|i: int, j: int| 0 <= i < j < v@.len() ==> chars_le(v@[i]@, v@[j]@),
    ensures
        string_views(out@).to_set() == string_views(v@).to_set(),
        strictly_sorted(string_views(out@)),
{
    let mut out: Vec<String> = Vec::new();
    let ghost vs = string_views(v@);
    for i in 0..v.len()
        invariant
            vs == string_views(v@),
            forall|a: int, b: int| 0 <= a < b < v@.len() ==> chars_le(v@[a]@, v@[b]@),
            string_views(out@).to_set() == vs.take(i as int).to_set(),
            strictly_sorted(string_views(out@)),
            forall|a: int, t: int|
                0 <= a < out@.len() && i <= t < v@.len() ==> chars_le(
                    #[trigger] out@[a]@,
                    #[trigger] v@[t]@,
                ),
    {
        let ghost before = string_views(out@);
        let ghost cur = v@[i as int]@;
        assert(vs.take(i as int + 1) =~= vs.take(i as int).push(cur));
        let n = out.len();
        let fresh = if n == 0 {
            true
        } else {
            let same = out[n - 1] == v[i];
            !same
        };
        if fresh {
            let s = v[i].clone();
            out.push(s);
            proof {
                assert(string_views(out@) =~= before.push(cur));
                assert forall|a: int| 0 <= a < before.len() implies before[a] != cur by {
                    let l = before.len() - 1;
                    assert(before[l] == out@[l]@);
                    assert(chars_le(out@[l]@, v@[i as int]@));
                    if a < l && before[a] == cur {
                        assert(chars_le(before[a], before[l]));
                        lemma_chars_le_antisym(before[a], before[l]);
                    }
                }
                assert forall|a: int, b: int|
                    0 <= a < b < string_views(out@).len() implies chars_le(
                    string_views(out@)[a],
                    string_views(out@)[b],
                ) by {
                    if b == before.len() {
                        assert(out@[a]@ == before[a]);
                        assert(chars_le(out@[a]@, v@[i as int]@));
                    }
                }
            }
        } else {
            proof {
                let l = before.len() - 1;
                assert(before[l] == cur);
                assert(before.contains(cur));
            }
        }
        proof {
            assert(string_views(out@).to_set() =~= vs.take(i as int + 1).to_set()) by {
                assert forall|w: Seq<char>| #[trigger] vs.take(i as int + 1).to_set().contains(w)
                    implies string_views(out@).to_set().contains(w) by {
                    if w != cur {
                        let k = choose|k: int| 0 <= k < i + 1 && #[trigger] vs.take(i as int + 1)[k] == w;
                        assert(vs.take(i as int)[k] == w);
                        assert(vs.take(i as int).to_set().contains(w));
                        assert(before.to_set().contains(w));
                        let m = choose|m: int| 0 <= m < before.len() && #[trigger] before[m] == w;
                        assert(string_views(out@)[m] == w);
                    } else if fresh {
                        assert(string_views(out@)[out@.len() - 1] == cur);
                    } else {
                        assert(before[before.len() - 1] == cur);
                        assert(string_views(out@)[before.len() - 1] == cur);
                    }
                }
                assert forall|w: Seq<char>| #[trigger] string_views(out@).to_set().contains(w)
                    implies vs.take(i as int + 1).to_set().contains(w) by {
                    let k = choose|k: int| 0 <= k < string_views(out@).len() && #[trigger] string_views(out@)[k] == w;
                    if k < before.len() {
                        assert(before[k] == w);
                        assert(before.to_set().contains(w));
                    } else {
                        assert(vs.take(i as int + 1)[i as int] == w);
                    }
                }
            }
            assert forall|a: int, t: int|
                0 <= a < out@.len() && i + 1 <= t < v@.len() implies chars_le(
                #[trigger] out@[a]@,
                #[trigger] v@[t]@,
            ) by {
                if a == out@.len() - 1 && fresh {
                    assert(chars_le(v@[i as int]@, v@[t]@));
                } else {
                    assert(chars_le(before[a], v@[t]@));
                }
            }
        }
    }
    proof {
        assert(vs.take(v@.len() as int) =~= vs);
    }
    out
}

/// Text of `"net#<id>"`.
pub open spec fn net_label_text(id: u32) -> Seq<char> {
    "net#"@ + decimal(id as nat)
}

/// The diagnostic name of a net: `net#<id>`.
pub fn net_label(id: u32) -> (s: String)
    ensures
        s@ == net_label_text(id),
{
    let mut s = String::from_str("net#");
    let d = u64_to_string(id as u64);
    s.append(d.as_str());
    s
}

/// Text of the debug rendering of a position.
pub open spec fn pos_debug_text(p: Pos3) -> Seq<char> {
    "Pos3 { x: "@ + signed_decimal(p.x as int) + ", y: "@ + signed_decimal(p.y as int) + ", z: "@
        + signed_decimal(p.z as int) + " }"@
}

/// The debug rendering of a position: `Pos3 { x: .., y: .., z: .. }`.
pub fn pos_debug(p: Pos3) -> (s: String)
    ensures
        s@ == pos_debug_text(p),
{
    let mut s = String::from_str("Pos3 { x: ");
    let x = i64_to_string(p.x as i64);
    s.append(x.as_str());
    s.append(", y: ");
    let y = i64_to_string(p.y as i64);
    s.append(y.as_str());
    s.append(", z: ");
    let z = i64_to_string(p.z as i64);
    s.append(z.as_str());
    s.append(" }");
    s
}

} // verus!
