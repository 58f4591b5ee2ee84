//! Normalization and tokenization of byte strings.
//!
//! A token is a maximal run of ASCII alphanumeric bytes, with uppercase
//! letters folded to lowercase.  Every other byte acts as a separator.

use vstd::prelude::*;

verus! {

/// The views of a sequence of byte vectors.
pub open spec fn views_of(vs: Seq<Vec<u8>>) -> Seq<Seq<u8>> {
    Seq::new(vs.len(), |i: int| vs[i]@)
}

/// A byte belongs to a word when it is an ASCII letter or digit.
pub open spec fn is_word_byte(b: u8) -> bool {
    (65 <= b && b <= 90) || (97 <= b && b <= 122) || (48 <= b && b <= 57)
}

/// ASCII uppercase letters fold to lowercase; every other byte is unchanged.
pub open spec fn lower_byte(b: u8) -> u8 {
    if 65 <= b && b <= 90 {
        (b + 32) as u8
    } else {
        b
    }
}

/// Left-to-right scan state over a prefix of the input: the tokens finished
/// so far, paired with the pending (still growing) word run.
pub open spec fn scan(s: Seq<u8>) -> (Seq<Seq<u8>>, Seq<u8>)
    decreases s.len(),
{
    if s.len() == 0 {
        (Seq::empty(), Seq::empty())
    } else {
        let p = scan(s.drop_last());
        if is_word_byte(s.last()) {
            (p.0, p.1.push(lower_byte(s.last())))
        } else if p.1.len() > 0 {
            (p.0.push(p.1), Seq::<u8>::empty())
        } else {
            p
        }
    }
}

/// The tokens of a byte string: its maximal alphanumeric runs, lowercased,
/// in order of appearance.
pub open spec fn tokens_of(s: Seq<u8>) -> Seq<Seq<u8>> {
    if scan(s).1.len() > 0 {
        scan(s).0.push(scan(s).1)
    } else {
        scan(s).0
    }
}

/// `p` is a prefix of `t`.
pub open spec fn is_prefix_of(p: Seq<u8>, t: Seq<u8>) -> bool {
    p.len() <= t.len() && t.take(p.len() as int) == p
}

fn word_byte(b: u8) -> (r: bool)
    ensures
        r == is_word_byte(b),
{
    (65 <= b && b <= 90) || (97 <= b && b <= 122) || (48 <= b && b <= 57)
}

fn to_lower(b: u8) -> (r: u8)
    ensures
        r == lower_byte(b),
{
    if 65 <= b && b <= 90 {
        b + 32
    } else {
        b
    }
}

/// Split a byte string into its normalized tokens.
pub fn tokenize(s: &Vec<u8>) -> (r: Vec<Vec<u8>>)
    ensures
        views_of(r@) == tokens_of(s@),
{
    let mut out: Vec<Vec<u8>> = Vec::new();
    let mut cur: Vec<u8> = Vec::new();
    let mut i: usize = 0;
    while i < s.len()
        invariant
            i <= s.len(),
            views_of(out@) == scan(s@.take(i as int)).0,
            cur@ == scan(s@.take(i as int)).1,
        decreases s.len() - i,
    {
        let ghost pre = s@.take(i as int);
        let ghost out_pre = out@;
        let b = s[i];
        if word_byte(b) {
            cur.push(to_lower(b));
        } else if cur.len() > 0 {
            out.push(cur);
            cur = Vec::new();
        }
        i += 1;
        proof {
            assert(s@.take(i as int).drop_last() =~= pre);
            assert(views_of(out@) =~= if out@ == out_pre {
                views_of(out_pre)
            } else {
                views_of(out_pre).push(out@.last()@)
            });
        }
    }
    proof {
        assert(s@.take(s.len() as int) =~= s@);
    }
    if cur.len() > 0 {
        let ghost out_pre = out@;
        out.push(cur);
        proof {
            assert(views_of(out@) =~= views_of(out_pre).push(out@.last()@));
        }
    }
    out
}

/// Does `t` start with `p`?
pub fn is_prefix(p: &Vec<u8>, t: &Vec<u8>) -> (r: bool)
    ensures
        r == is_prefix_of(p@, t@),
{
    if p.len() > t.len() {
        return false;
    }
    let mut i: usize = 0;
    while i < p.len()
        invariant
            i <= p.len(),
            p.len() <= t.len(),
            forall|j: int| 0 <= j < i ==> p@[j] == t@[j],
        decreases p.len() - i,
    {
        if p[i] != t[i] {
            proof {
                assert(t@.take(p@.len() as int)[i as int] != p@[i as int]);
            }
            return false;
        }
        i += 1;
    }
    proof {
        assert(t@.take(p@.len() as int) =~= p@);
    }
    true
}

/// Is `x` among the byte vectors of `vs`?
pub fn contains_tok(vs: &Vec<Vec<u8>>, x: &Vec<u8>) -> (r: bool)
    ensures
        r == views_of(vs@).contains(x@),
{
    let mut i: usize = 0;
    while i < vs.len()
        invariant
            i <= vs.len(),
            forall|j: int| 0 <= j < i ==> views_of(vs@)[j] != x@,
        decreases vs.len() - i,
    {
        if bytes_eq(&vs[i], x) {
            proof {
                assert(views_of(vs@)[i as int] == x@);
            }
            return true;
        }
        i += 1;
    }
    proof {
        if views_of(vs@).contains(x@) {
            let j = choose|j: int| 0 <= j < views_of(vs@).len() && views_of(vs@)[j] == x@;
            assert(views_of(vs@)[j] != x@);
        }
    }
    false
}

/// Byte-for-byte equality of two byte vectors.
pub fn bytes_eq(a: &Vec<u8>, b: &Vec<u8>) -> (r: bool)
    ensures
        r == (a@ == b@),
{
    if a.len() != b.len() {
        return false;
    }
    let mut i: usize = 0;
    while i < a.len()
        invariant
            i <= a.len(),
            a.len() == b.len(),
            forall|j: int| 0 <= j < i ==> a@[j] == b@[j],
        decreases a.len() - i,
    {
        if a[i] != b[i] {
            return false;
        }
        i += 1;
    }
    proof {
        assert(a@ =~= b@);
    }
    true
}

} // verus!
