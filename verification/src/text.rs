//! Order and slicing of the strings that name packages.

use vstd::prelude::*;
use vstd::string::*;
use vstd::utf8::*;

verus! {

/// Lexicographic order on byte strings: `a` comes before `b` when `a` is a
/// proper prefix of `b`, or when `a` has the smaller byte at the first place
/// where the two differ.
pub open spec fn lex_lt(a: Seq<u8>, b: Seq<u8>) -> bool {
    exists|k: int|
        0 <= k <= a.len() && k < b.len() && #[trigger] a.take(k) == b.take(k) && (k == a.len()
            || a[k] < b[k])
}

/// The order of strings: lexicographic by their UTF-8 bytes.
pub open spec fn str_lt(a: Seq<char>, b: Seq<char>) -> bool {
    lex_lt(encode_utf8(a), encode_utf8(b))
}

/// No byte string comes before itself.
pub proof fn lemma_lex_lt_irreflexive(a: Seq<u8>)
    ensures
        !lex_lt(a, a),
{
}

/// Of two byte strings that differ, one comes before the other.
pub proof fn lemma_lex_lt_total(a: Seq<u8>, b: Seq<u8>)
    ensures
        lex_lt(a, b) || lex_lt(b, a) || a == b,
    decreases a.len(),
{
    if a.len() == 0 {
        if b.len() > 0 {
            assert(a.take(0) == b.take(0));
        } else {
            assert(a =~= b);
        }
    } else if b.len() == 0 {
        assert(b.take(0) == a.take(0));
    } else if a[0] != b[0] {
        assert(a.take(0) == b.take(0));
        assert(b.take(0) == a.take(0));
    } else {
        let a1 = a.drop_first();
        let b1 = b.drop_first();
        lemma_lex_lt_total(a1, b1);
        if lex_lt(a1, b1) {
            let k = choose|k: int|
                0 <= k <= a1.len() && k < b1.len() && #[trigger] a1.take(k) == b1.take(k) && (k
                    == a1.len() || a1[k] < b1[k]);
            lemma_take_after_head(a, b, k);
        } else if lex_lt(b1, a1) {
            let k = choose|k: int|
                0 <= k <= b1.len() && k < a1.len() && #[trigger] b1.take(k) == a1.take(k) && (k
                    == b1.len() || b1[k] < a1[k]);
            lemma_take_after_head(b, a, k);
        } else {
            assert(a =~= seq![a[0]] + a1);
            assert(b =~= seq![b[0]] + b1);
        }
    }
}

proof fn lemma_take_after_head(a: Seq<u8>, b: Seq<u8>, k: int)
    requires
        a.len() > 0,
        b.len() > 0,
        a[0] == b[0],
        0 <= k <= a.len() - 1,
        k <= b.len() - 1,
        a.drop_first().take(k) == b.drop_first().take(k),
    ensures
        a.take(k + 1) == b.take(k + 1),
{
    let ta = a.take(k + 1);
    let tb = b.take(k + 1);
    assert forall|j: int| 0 <= j < ta.len() implies ta[j] == tb[j] by {
        if j > 0 {
            let da = a.drop_first();
            let db = b.drop_first();
            assert(da.take(k)[j - 1] == db.take(k)[j - 1]);
            assert(da.take(k)[j - 1] == da[j - 1]);
            assert(db.take(k)[j - 1] == db[j - 1]);
            assert(da[j - 1] == a[j]);
            assert(db[j - 1] == b[j]);
        }
    }
    assert(ta =~= tb);
}

/// The order is transitive.
pub proof fn lemma_lex_lt_transitive(a: Seq<u8>, b: Seq<u8>, c: Seq<u8>)
    requires
        lex_lt(a, b),
        lex_lt(b, c),
    ensures
        lex_lt(a, c),
{
    let k1 = choose|k: int|
        0 <= k <= a.len() && k < b.len() && #[trigger] a.take(k) == b.take(k) && (k == a.len()
            || a[k] < b[k]);
    let k2 = choose|k: int|
        0 <= k <= b.len() && k < c.len() && #[trigger] b.take(k) == c.take(k) && (k == b.len()
            || b[k] < c[k]);
    let k = if k1 <= k2 {
        k1
    } else {
        k2
    };
    assert forall|j: int| 0 <= j < k implies a.take(k)[j] == c.take(k)[j] by {
        assert(a.take(k1)[j] == b.take(k1)[j]);
        assert(b.take(k2)[j] == c.take(k2)[j]);
    }
    assert(a.take(k) =~= c.take(k));
    if k1 < k2 {
        assert(b.take(k2)[k1] == c.take(k2)[k1]);
    } else if k2 < k1 {
        assert(a.take(k1)[k2] == b.take(k1)[k2]);
    }
}

/// Two byte strings are never each before the other.
pub proof fn lemma_lex_lt_asymmetric(a: Seq<u8>, b: Seq<u8>)
    requires
        lex_lt(a, b),
    ensures
        !lex_lt(b, a),
{
    if lex_lt(b, a) {
        lemma_lex_lt_transitive(a, b, a);
    }
}

/// Strings with the same UTF-8 bytes are the same string.
pub proof fn lemma_utf8_injective(a: Seq<char>, b: Seq<char>)
    requires
        encode_utf8(a) == encode_utf8(b),
    ensures
        a == b,
{
    encode_utf8_decode_utf8(a);
    encode_utf8_decode_utf8(b);
}

/// Whether the bytes of `a` come before those of `b`.
pub fn bytes_lt(a: &[u8], b: &[u8]) -> (r: bool)
    ensures
        r == lex_lt(a@, b@),
{
    let mut i: usize = 0;
    while i < a.len() && i < b.len()
        invariant
            i <= a.len(),
            i <= b.len(),
            a@.take(i as int) == b@.take(i as int),
        decreases a.len() - i,
    {
        if a[i] != b[i] {
            proof {
                if lex_lt(a@, b@) != (a[i as int] < b[i as int]) {
                    if a[i as int] < b[i as int] {
                    } else {
                        let k = choose|k: int|
                            0 <= k <= a@.len() && k < b@.len() && #[trigger] a@.take(k) == b@.take(
                                k,
                            ) && (k == a@.len() || a@[k] < b@[k]);
                        if k > i {
                            assert(a@.take(k)[i as int] == b@.take(k)[i as int]);
                        } else if k < i {
                            assert(a@.take(i as int)[k] == b@.take(i as int)[k]);
                        }
                    }
                }
            }
            return a[i] < b[i];
        }
        proof {
            assert(a@.take(i + 1) =~= a@.take(i as int).push(a@[i as int]));
            assert(b@.take(i + 1) =~= b@.take(i as int).push(b@[i as int]));
        }
        i += 1;
    }
    proof {
        if lex_lt(a@, b@) != (a@.len() < b@.len()) {
            if a@.len() < b@.len() {
            } else {
                let k = choose|k: int|
                    0 <= k <= a@.len() && k < b@.len() && #[trigger] a@.take(k) == b@.take(k) && (k
                        == a@.len() || a@[k] < b@[k]);
                assert(a@.take(i as int)[k] == b@.take(i as int)[k]);
            }
        }
    }
    a.len() < b.len()
}

/// Whether string `a` comes before string `b`.
pub fn string_lt(a: &String, b: &String) -> (r: bool)
    ensures
        r == str_lt(a@, b@),
{
    bytes_lt(a.as_str().as_bytes(), b.as_str().as_bytes())
}

/// The place of the first `+` in a string, its length where it has none.
pub open spec fn plus_position(s: Seq<char>) -> int
    decreases s.len(),
{
    if s.len() == 0 || s[0] == '+' {
        0
    } else {
        1 + plus_position(s.drop_first())
    }
}

/// The first `+` of a string stands at `plus_position`: before it there is
/// none, and the place is inside the string exactly where the string has one.
pub proof fn lemma_plus_position(s: Seq<char>)
    ensures
        0 <= plus_position(s) <= s.len(),
        forall|j: int| 0 <= j < plus_position(s) ==> s[j] != '+',
        plus_position(s) < s.len() ==> s[plus_position(s)] == '+',
    decreases s.len(),
{
    if s.len() == 0 || s[0] == '+' {
    } else {
        let t = s.drop_first();
        lemma_plus_position(t);
        assert forall|j: int| 0 <= j < plus_position(s) implies s[j] != '+' by {
            if j > 0 {
                assert(t[j - 1] == s[j]);
            }
        }
    }
}

/// A place with a `+`, before which there is none, is `plus_position`.
pub proof fn lemma_plus_position_unique(s: Seq<char>, k: int)
    requires
        0 <= k <= s.len(),
        forall|j: int| 0 <= j < k ==> s[j] != '+',
        k < s.len() ==> s[k] == '+',
    ensures
        plus_position(s) == k,
{
    lemma_plus_position(s);
}

/// Where a package comes from, as the canonical model records it: the word
/// `local` for a package without a source, else the source up to its first
/// `+` (the whole source where it has none).
pub open spec fn source_string(source: Option<Seq<char>>) -> Seq<char> {
    match source {
        None => "local"@,
        Some(s) => s.take(plus_position(s)),
    }
}

/// Shortens a package source to the kind of origin that stands before the
/// first `+`; a package without a source is `local`.
pub fn source_to_source_string(s: &Option<String>) -> (r: String)
    ensures
        r@ == source_string(
            match *s {
                Some(source) => Some(source@),
                None => None,
            },
        ),
{
    match s {
        Some(source) => {
            let text = source.as_str();
            let n = text.unicode_len();
            let mut k: usize = 0;
            while k < n && text.get_char(k) != '+'
                invariant
                    k <= n,
                    n == text@.len(),
                    forall|j: int| 0 <= j < k ==> text@[j] != '+',
                decreases n - k,
            {
                k += 1;
            }
            proof {
                lemma_plus_position_unique(text@, k as int);
            }
            text.substring_char(0, k).to_owned()
        },
        None => "local".to_owned(),
    }
}

} // verus!
