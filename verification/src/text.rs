//! Token strings: their order, their length in characters, and the marks
//! that protect a token from eviction.

use vstd::prelude::*;
use vstd::string::*;
use vstd::std_specs::iter::IteratorSpec;

verus! {

/// `a` and `b` agree on their first `k` characters, and there `a` ends while
/// `b` goes on, or `a` has the smaller character.
pub open spec fn lex_lt_at(a: Seq<char>, b: Seq<char>, k: int) -> bool {
    &&& 0 <= k <= a.len()
    &&& k < b.len()
    &&& a.take(k) == b.take(k)
    &&& (k == a.len() || a[k] < b[k])
}

/// The lexicographic order of token strings by code point. It is the order
/// in which `str` compares.
pub open spec fn lex_lt(a: Seq<char>, b: Seq<char>) -> bool {
    exists|k: int| lex_lt_at(a, b, k)
}

/// No token comes before itself.
pub proof fn lemma_lex_irreflexive(a: Seq<char>)
    ensures
        !lex_lt(a, a),
{
}

/// The order is transitive.
pub proof fn lemma_lex_transitive(a: Seq<char>, b: Seq<char>, c: Seq<char>)
    requires
        lex_lt(a, b),
        lex_lt(b, c),
    ensures
        lex_lt(a, c),
{
    let k1 = choose|k: int| lex_lt_at(a, b, k);
    let k2 = choose|k: int| lex_lt_at(b, c, k);
    let k = if k1 <= k2 { k1 } else { k2 };
    assert(a.take(k) =~= a.take(k1).take(k));
    assert(b.take(k) =~= b.take(k1).take(k));
    assert(b.take(k) =~= b.take(k2).take(k));
    assert(c.take(k) =~= c.take(k2).take(k));
    if k1 < k2 {
        assert(b[k1] == b.take(k2)[k1]);
        assert(c[k1] == c.take(k2)[k1]);
    } else if k2 < k1 {
        assert(a[k2] == a.take(k1)[k2]);
        assert(b[k2] == b.take(k1)[k2]);
    }
    assert(lex_lt_at(a, c, k));
}

/// Of two tokens at most one comes before the other.
pub proof fn lemma_lex_asymmetric(a: Seq<char>, b: Seq<char>)
    requires
        lex_lt(a, b),
    ensures
        !lex_lt(b, a),
        a != b,
{
    if lex_lt(b, a) {
        lemma_lex_transitive(a, b, a);
    }
}

/// Two different tokens are ordered one way or the other.
pub proof fn lemma_lex_connected(a: Seq<char>, b: Seq<char>)
    requires
        a != b,
    ensures
        lex_lt(a, b) || lex_lt(b, a),
{
    assert(a.take(0) =~= b.take(0));
    lemma_first_difference(a, b, 0);
}

proof fn lemma_first_difference(a: Seq<char>, b: Seq<char>, k: int)
    requires
        a != b,
        0 <= k <= a.len(),
        k <= b.len(),
        a.take(k) == b.take(k),
    ensures
        lex_lt(a, b) || lex_lt(b, a),
    decreases a.len() - k,
{
    if k == a.len() {
        if k == b.len() {
            assert(a =~= a.take(k));
            assert(b =~= b.take(k));
        } else {
            assert(lex_lt_at(a, b, k));
        }
    } else if k == b.len() {
        assert(lex_lt_at(b, a, k));
    } else if a[k] != b[k] {
        if a[k] < b[k] {
            assert(lex_lt_at(a, b, k));
        } else {
            assert(lex_lt_at(b, a, k));
        }
    } else {
        assert(a.take(k + 1) =~= a.take(k).push(a[k]));
        assert(b.take(k + 1) =~= b.take(k).push(b[k]));
        lemma_first_difference(a, b, k + 1);
    }
}

/// How two tokens stand to each other in the lexicographic order.
#[derive(Debug, Clone, Copy, PartialEq, Eq, Structural)]
pub enum TokenOrder {
    Before,
    Same,
    After,
}

/// Compares two tokens character by character.
pub fn token_order(a: &str, b: &str) -> (r: TokenOrder)
    ensures
        r == TokenOrder::Before <==> lex_lt(a@, b@),
        r == TokenOrder::Same <==> a@ == b@,
        r == TokenOrder::After <==> lex_lt(b@, a@),
{
    let mut ia = a.chars();
    let mut ib = b.chars();
    let ghost mut k: int = 0;
    loop
        invariant
            0 <= k <= a@.len(),
            k <= b@.len(),
            ia.remaining() == a@.skip(k),
            ib.remaining() == b@.skip(k),
            a@.take(k) == b@.take(k),
            ia.obeys_prophetic_iter_laws(),
            ib.obeys_prophetic_iter_laws(),
        decreases a@.len() - k,
    {
        let ca = ia.next();
        let cb = ib.next();
        match (ca, cb) {
            (None, None) => {
                proof {
                    assert(a@ =~= a@.take(k));
                    assert(b@ =~= b@.take(k));
                    lemma_lex_irreflexive(a@);
                }
                return TokenOrder::Same;
            },
            (None, Some(_)) => {
                proof {
                    assert(lex_lt_at(a@, b@, k));
                    lemma_lex_asymmetric(a@, b@);
                }
                return TokenOrder::Before;
            },
            (Some(_), None) => {
                proof {
                    assert(lex_lt_at(b@, a@, k));
                    lemma_lex_asymmetric(b@, a@);
                }
                return TokenOrder::After;
            },
            (Some(x), Some(y)) => {
                assert(x == a@[k]);
                assert(y == b@[k]);
                if x != y {
                    if x < y {
                        proof {
                            assert(lex_lt_at(a@, b@, k));
                            lemma_lex_asymmetric(a@, b@);
                        }
                        return TokenOrder::Before;
                    } else {
                        proof {
                            assert(lex_lt_at(b@, a@, k));
                            lemma_lex_asymmetric(b@, a@);
                        }
                        return TokenOrder::After;
                    }
                }
                proof {
                    assert(a@.take(k + 1) =~= a@.take(k).push(a@[k]));
                    assert(b@.take(k + 1) =~= b@.take(k).push(b@[k]));
                    assert(a@.skip(k).drop_first() =~= a@.skip(k + 1));
                    assert(b@.skip(k).drop_first() =~= b@.skip(k + 1));
                    k = k + 1;
                }
            },
        }
    }
}

/// Whether two tokens are the same string.
pub fn same_token(a: &str, b: &str) -> (r: bool)
    ensures
        r == (a@ == b@),
{
    token_order(a, b) == TokenOrder::Same
}

/// The number of characters of a token.
pub fn char_len(token: &str) -> (n: usize)
    ensures
        n == token@.len(),
{
    token.unicode_len()
}

/// A special token: one that opens with `<` and closes with `>`, or opens
/// with `[` and closes with `]`.
pub open spec fn is_special(token: Seq<char>) -> bool {
    &&& token.len() > 0
    &&& ((token.first() == '<' && token.last() == '>') || (token.first() == '[' && token.last()
        == ']'))
}

/// Whether a token is delimited by angle or square brackets.
pub fn is_special_token(token: &str) -> (r: bool)
    ensures
        r == is_special(token@),
{
    let n = token.unicode_len();
    if n == 0 {
        return false;
    }
    let first = token.get_char(0);
    let last = token.get_char(n - 1);
    (first == '<' && last == '>') || (first == '[' && last == ']')
}

/// The word-boundary marker, a token that is never evicted.
pub open spec fn space_marker() -> Seq<char> {
    seq!['\u{2581}']
}

/// The word-boundary marker as a string.
pub fn space_marker_token() -> (r: String)
    ensures
        r@ == space_marker(),
{
    proof {
        reveal_strlit("\u{2581}");
    }
    let r = String::from_str("\u{2581}");
    assert(r@ =~= space_marker());
    r
}

/// The first `k` characters of a token.
pub fn prefix_of(token: &str, k: usize) -> (r: &str)
    requires
        k <= token@.len(),
    ensures
        r@ == token@.take(k as int),
{
    token.substring_char(0, k)
}

/// A token without its first `k` characters.
pub fn suffix_of(token: &str, k: usize) -> (r: &str)
    requires
        k <= token@.len(),
    ensures
        r@ == token@.skip(k as int),
{
    let n = token.unicode_len();
    token.substring_char(k, n)
}

/// The character at position `k` of a token, as a token of its own.
pub fn char_token_at(token: &str, k: usize) -> (r: &str)
    requires
        k < token@.len(),
    ensures
        r@ == token@.subrange(k as int, k + 1),
{
    let n = token.unicode_len();
    token.substring_char(k, k + 1)
}

/// The token made of `a` followed by `b`.
pub fn joined(a: &str, b: &str) -> (r: String)
    ensures
        r@ == a@ + b@,
{
    String::from_str(a).concat(b)
}

/// The character of a decimal digit.
pub open spec fn digit_char(d: nat) -> char {
    if d == 0 {
        '0'
    } else if d == 1 {
        '1'
    } else if d == 2 {
        '2'
    } else if d == 3 {
        '3'
    } else if d == 4 {
        '4'
    } else if d == 5 {
        '5'
    } else if d == 6 {
        '6'
    } else if d == 7 {
        '7'
    } else if d == 8 {
        '8'
    } else {
        '9'
    }
}

/// A number in decimal digits, without leading zeros.
pub open spec fn decimal(n: nat) -> Seq<char>
    decreases n,
{
    if n < 10 {
        seq![digit_char(n)]
    } else {
        decimal(n / 10).push(digit_char(n % 10))
    }
}

fn digit_str(d: usize) -> (r: &'static str)
    requires
        d < 10,
    ensures
        r@ == seq![digit_char(d as nat)],
{
    proof {
        reveal_strlit("0");
        reveal_strlit("1");
        reveal_strlit("2");
        reveal_strlit("3");
        reveal_strlit("4");
        reveal_strlit("5");
        reveal_strlit("6");
        reveal_strlit("7");
        reveal_strlit("8");
        reveal_strlit("9");
    }
    let r = if d == 0 {
        "0"
    } else if d == 1 {
        "1"
    } else if d == 2 {
        "2"
    } else if d == 3 {
        "3"
    } else if d == 4 {
        "4"
    } else if d == 5 {
        "5"
    } else if d == 6 {
        "6"
    } else if d == 7 {
        "7"
    } else if d == 8 {
        "8"
    } else {
        "9"
    };
    assert(r@ =~= seq![digit_char(d as nat)]);
    r
}

/// Writes a number in decimal digits.
pub fn decimal_string(n: usize) -> (r: String)
    ensures
        r@ == decimal(n as nat),
    decreases n,
{
    if n < 10 {
        String::from_str(digit_str(n))
    } else {
        let head = decimal_string(n / 10);
        let d = digit_str(n % 10);
        let r = head.concat(d);
        assert(r@ =~= decimal((n / 10) as nat).push(digit_char((n % 10) as nat)));
        r
    }
}

/// Why a token was evicted: its length in characters, and whether a merge
/// produces it.
pub open spec fn eviction_reason(len: nat, produced: bool) -> Seq<char> {
    "Removed to keep vocab size fixed. len="@ + decimal(len) + ", merge_produced="@ + (if produced {
        "true"@
    } else {
        "false"@
    })
}

/// The reason that is reported with an evicted token.
pub fn eviction_reason_string(len: usize, produced: bool) -> (r: String)
    ensures
        r@ == eviction_reason(len as nat, produced),
{
    let r = String::from_str("Removed to keep vocab size fixed. len=");
    let digits = decimal_string(len);
    let r = r.concat(digits.as_str());
    let r = r.concat(", merge_produced=");
    if produced {
        r.concat("true")
    } else {
        r.concat("false")
    }
}

} // verus!
