//! String helpers for path work: lexicographic order, splitting a path at its
//! last separator, joining a directory path with a name, and rendering a
//! message UID as decimal digits.

use vstd::prelude::*;

verus! {

/// Lexicographic order on character sequences, by code point, with a prefix
/// ordered before its extensions. This matches the byte order of the UTF-8
/// encodings, which is the order `str` comparison uses.
pub open spec fn lex_le(a: Seq<char>, b: Seq<char>) -> bool
    decreases a.len(),
{
    if a.len() == 0 {
        true
    } else if b.len() == 0 {
        false
    } else if a[0] == b[0] {
        lex_le(a.skip(1), b.skip(1))
    } else {
        (a[0] as u32) < (b[0] as u32)
    }
}

/// Decides `lex_le` on two string slices.
pub fn str_le(a: &str, b: &str) -> (r: bool)
    ensures
        r == lex_le(a@, b@),
{
    let a_len = a.unicode_len();
    let b_len = b.unicode_len();
    let mut i: usize = 0;
    proof {
        assert(a@.skip(0) =~= a@);
        assert(b@.skip(0) =~= b@);
    }
    loop
        invariant
            i <= a_len,
            i <= b_len,
            a_len == a@.len(),
            b_len == b@.len(),
            forall|j: int| 0 <= j < i ==> a@[j] == b@[j],
            lex_le(a@, b@) == lex_le(a@.skip(i as int), b@.skip(i as int)),
        decreases a_len - i,
    {
        if i == a_len {
            return true;
        }
        if i == b_len {
            return false;
        }
        let ca = a.get_char(i);
        let cb = b.get_char(i);
        if ca != cb {
            proof {
                assert(a@.skip(i as int)[0] == a@[i as int]);
                assert(b@.skip(i as int)[0] == b@[i as int]);
            }
            return (ca as u32) < (cb as u32);
        }
        proof {
            assert(a@.skip(i as int)[0] == a@[i as int]);
            assert(b@.skip(i as int)[0] == b@[i as int]);
            assert(a@.skip(i as int).skip(1) =~= a@.skip(i + 1));
            assert(b@.skip(i as int).skip(1) =~= b@.skip(i + 1));
        }
        i = i + 1;
    }
}

/// The index of the last `/` in `p`, or `-1` if `p` holds none.
pub open spec fn last_slash(p: Seq<char>) -> int
    decreases p.len(),
{
    if p.len() == 0 {
        -1
    } else if p[p.len() - 1] == '/' {
        p.len() - 1
    } else {
        last_slash(p.drop_last())
    }
}

/// What `last_slash` returns: a position in range that holds a `/`, with no
/// `/` anywhere after it; or `-1` when no position holds one.
pub proof fn lemma_last_slash(p: Seq<char>)
    ensures
        -1 <= last_slash(p) < p.len(),
        last_slash(p) >= 0 ==> p[last_slash(p)] == '/',
        forall|j: int| last_slash(p) < j < p.len() ==> p[j] != '/',
    decreases p.len(),
{
    if p.len() == 0 {
    } else if p[p.len() - 1] == '/' {
    } else {
        lemma_last_slash(p.drop_last());
        assert forall|j: int| last_slash(p) < j < p.len() implies p[j] != '/' by {
            if j < p.len() - 1 {
                assert(p.drop_last()[j] == p[j]);
            }
        }
    }
}

/// The segment of `p` after its last `/`; all of `p` when it has none.
pub open spec fn leaf_of(p: Seq<char>) -> Seq<char> {
    p.subrange(last_slash(p) + 1, p.len() as int)
}

/// The path of the directory that `p` lies in: what stands before the last
/// `/`, or the root path when `p` has no `/` at all.
pub open spec fn parent_path_of(p: Seq<char>) -> Seq<char> {
    if last_slash(p) >= 0 {
        p.subrange(0, last_slash(p))
    } else {
        root_path()
    }
}

/// The path under which the root directory is registered.
pub open spec fn root_path() -> Seq<char> {
    seq!['/']
}

/// Splits `p` at its last `/`: the part before it (`None` when `p` has no
/// `/`) and the part after it.
pub fn split_last(p: &str) -> (r: (Option<String>, String))
    ensures
        r.1@ == leaf_of(p@),
        r.0 is Some <==> last_slash(p@) >= 0,
        r.0 is Some ==> r.0->0@ == p@.subrange(0, last_slash(p@)),
{
    let n = p.unicode_len();
    let mut i: usize = n;
    loop
        invariant
            i <= n,
            n == p@.len(),
            forall|j: int| i <= j < n ==> p@[j] != '/',
        decreases i,
    {
        if i == 0 {
            proof {
                lemma_last_slash(p@);
                assert(last_slash(p@) == -1) by {
                    if last_slash(p@) >= 0 {
                        assert(p@[last_slash(p@)] == '/');
                    }
                }
                assert(leaf_of(p@) =~= p@);
            }
            return (None, p.to_owned());
        }
        let c = p.get_char(i - 1);
        if c == '/' {
            proof {
                lemma_last_slash(p@);
                assert(last_slash(p@) == i - 1) by {
                    if last_slash(p@) > i - 1 {
                        assert(p@[last_slash(p@)] != '/');
                    }
                    if last_slash(p@) < i - 1 {
                        assert(p@[i - 1] != '/');
                    }
                }
            }
            let parent = p.substring_char(0, i - 1);
            let leaf = p.substring_char(i, n);
            return (Some(parent.to_owned()), leaf.to_owned());
        }
        i = i - 1;
    }
}

/// Joins a directory path and a name with a `/` between them.
pub fn join_path(parent: &str, leaf: &str) -> (r: String)
    ensures
        r@ == parent@ + seq!['/'] + leaf@,
{
    let mut s = parent.to_owned();
    s.append("/");
    s.append(leaf);
    proof {
        reveal_strlit("/");
        assert("/"@ =~= seq!['/']);
    }
    s
}

/// Splitting undoes joining: when `leaf` holds no `/`, the joined path's last
/// `/` is the one the join added, so its parent part and leaf part are the
/// two pieces that went in.
pub proof fn lemma_join_split(parent: Seq<char>, leaf: Seq<char>)
    requires
        forall|j: int| 0 <= j < leaf.len() ==> leaf[j] != '/',
    ensures
        last_slash(parent + seq!['/'] + leaf) == parent.len(),
        leaf_of(parent + seq!['/'] + leaf) == leaf,
        parent_path_of(parent + seq!['/'] + leaf) == parent,
{
    let q = parent + seq!['/'] + leaf;
    lemma_last_slash(q);
    assert(q[parent.len() as int] == '/');
    assert(last_slash(q) == parent.len()) by {
        if last_slash(q) > parent.len() {
            assert(q[last_slash(q)] == leaf[last_slash(q) - parent.len() - 1]);
        }
        if last_slash(q) < parent.len() {
            assert(q[parent.len() as int] != '/');
        }
    }
    assert(leaf_of(q) =~= leaf);
    assert(parent_path_of(q) =~= parent);
}

/// The digit character of `d`, for `d < 10`.
pub open spec fn dec_digit(d: nat) -> char {
    if d == 0 {
        '0'
    } else if d == 1 {
        '1'
    } else if d == 2 {
        '2'
    } else if d == 3 {
        '3'
    } else if d == 4 {
        '4'
    } else if d == 5 {
        '5'
    } else if d == 6 {
        '6'
    } else if d == 7 {
        '7'
    } else if d == 8 {
        '8'
    } else {
        '9'
    }
}

/// The decimal rendering of `n`, without a sign and without leading zeros
/// (a single `'0'` for zero).
pub open spec fn dec_str(n: nat) -> Seq<char>
    decreases n,
{
    if n < 10 {
        seq![dec_digit(n)]
    } else {
        dec_str(n / 10).push(dec_digit(n % 10))
    }
}

/// A decimal rendering holds digit characters only, and at least one.
pub proof fn lemma_dec_str_digits(n: nat)
    ensures
        dec_str(n).len() >= 1,
        forall|j: int| 0 <= j < dec_str(n).len() ==> '0' <= #[trigger] dec_str(n)[j] <= '9',
    decreases n,
{
    if n >= 10 {
        lemma_dec_str_digits(n / 10);
    }
}

/// Decimal renderings are one digit per division step long.
pub proof fn lemma_dec_str_len(n: nat)
    ensures
        n < 10 ==> dec_str(n).len() == 1,
        n >= 10 ==> dec_str(n).len() == dec_str(n / 10).len() + 1,
        n >= 10 ==> dec_str(n).len() >= 2,
        dec_str(n).len() >= 1,
    decreases n,
{
    if n >= 10 {
        lemma_dec_str_len(n / 10);
    }
}

/// Different numbers render differently: the rendering has no sign and no
/// leading zeros, so it determines the number.
pub proof fn lemma_dec_str_injective(m: nat, n: nat)
    requires
        m != n,
    ensures
        dec_str(m) != dec_str(n),
    decreases m + n,
{
    lemma_dec_str_len(m);
    lemma_dec_str_len(n);
    if m < 10 && n < 10 {
        assert(dec_str(m)[0] == dec_digit(m));
        assert(dec_str(n)[0] == dec_digit(n));
    } else if m >= 10 && n >= 10 && dec_str(m).len() == dec_str(n).len() {
        let dm = dec_str(m / 10);
        let dn = dec_str(n / 10);
        assert(dec_str(m) == dm.push(dec_digit(m % 10)));
        assert(dec_str(n) == dn.push(dec_digit(n % 10)));
        if m % 10 != n % 10 {
            assert(dec_str(m)[dec_str(m).len() - 1] == dec_digit(m % 10));
            assert(dec_str(n)[dec_str(n).len() - 1] == dec_digit(n % 10));
        } else {
            assert(m / 10 != n / 10);
            lemma_dec_str_injective(m / 10, n / 10);
            assert(dm.len() == dn.len());
            if forall|q: int| 0 <= q < dm.len() ==> dm[q] == #[trigger] dn[q] {
                assert(dm =~= dn);
                assert(false);
            }
            let k = choose|k: int| 0 <= k < dm.len() && dm[k] != #[trigger] dn[k];
            assert(dec_str(m)[k] == dm[k]);
            assert(dec_str(n)[k] == dn[k]);
        }
    }
}

/// The single digit `d` as a string slice.
fn digit_str(d: u32) -> (s: &'static str)
    requires
        d < 10,
    ensures
        s@ == seq![dec_digit(d as nat)],
{
    proof {
        reveal_strlit("0");
        reveal_strlit("1");
        reveal_strlit("2");
        reveal_strlit("3");
        reveal_strlit("4");
        reveal_strlit("5");
        reveal_strlit("6");
        reveal_strlit("7");
        reveal_strlit("8");
        reveal_strlit("9");
    }
    let s = if d == 0 {
        "0"
    } else if d == 1 {
        "1"
    } else if d == 2 {
        "2"
    } else if d == 3 {
        "3"
    } else if d == 4 {
        "4"
    } else if d == 5 {
        "5"
    } else if d == 6 {
        "6"
    } else if d == 7 {
        "7"
    } else if d == 8 {
        "8"
    } else {
        "9"
    };
    proof {
        assert(s@ =~= seq![dec_digit(d as nat)]);
    }
    s
}

/// Renders `n` in decimal.
pub fn u32_string(n: u32) -> (s: String)
    ensures
        s@ == dec_str(n as nat),
    decreases n,
{
    if n < 10 {
        digit_str(n).to_owned()
    } else {
        let mut s = u32_string(n / 10);
        s.append(digit_str(n % 10));
        proof {
            assert(s@ =~= dec_str((n / 10) as nat).push(dec_digit((n % 10) as nat)));
        }
        s
    }
}

} // verus!
