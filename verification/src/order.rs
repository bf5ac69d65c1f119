//! The two orders on strings that the library sorts and searches by.
//!
//! Object identifiers are ordered character by character. Relative paths are
//! ordered component by component, which for paths written with `/` is the
//! same as ordering them character by character with the separator placed
//! before every other character: `a/b` comes before `a.b`, because the
//! component `a` comes before the component `a.b`.

use vstd::prelude::*;
use vstd::std_specs::iter::IteratorSpec;

verus! {

/// The place of a character in the order. With `by_path` the separator `/`
/// comes first; every other character keeps the place of its code point.
pub open spec fn rank(c: char, by_path: bool) -> int {
    if by_path && c == '/' {
        -1
    } else {
        c as int
    }
}

/// `a` comes strictly before `b`: at the first position where they differ `a`
/// holds the character of lower rank, or `a` ends there and `b` goes on.
pub open spec fn lex_lt(a: Seq<char>, b: Seq<char>, by_path: bool) -> bool
    decreases a.len(),
{
    if b.len() == 0 {
        false
    } else if a.len() == 0 {
        true
    } else if a[0] == b[0] {
        lex_lt(a.drop_first(), b.drop_first(), by_path)
    } else {
        rank(a[0], by_path) < rank(b[0], by_path)
    }
}

/// The order of relative paths.
pub open spec fn path_lt(a: Seq<char>, b: Seq<char>) -> bool {
    lex_lt(a, b, true)
}

/// The order of object identifiers.
pub open spec fn oid_lt(a: Seq<char>, b: Seq<char>) -> bool {
    lex_lt(a, b, false)
}

/// How one string stands to another in an order.
#[derive(Clone, Copy, Debug, PartialEq, Eq, Structural)]
pub enum Sign {
    Before,
    Same,
    After,
}

/// The sign of `a` against `b`.
pub open spec fn sign_of(a: Seq<char>, b: Seq<char>, by_path: bool) -> Sign {
    if a == b {
        Sign::Same
    } else if lex_lt(a, b, by_path) {
        Sign::Before
    } else {
        Sign::After
    }
}

/// No string comes before itself.
pub proof fn lemma_lex_irreflexive(a: Seq<char>, by_path: bool)
    ensures
        !lex_lt(a, a, by_path),
    decreases a.len(),
{
    if a.len() > 0 {
        lemma_lex_irreflexive(a.drop_first(), by_path);
    }
}

/// Of two different strings exactly one comes before the other.
pub proof fn lemma_lex_total(a: Seq<char>, b: Seq<char>, by_path: bool)
    ensures
        a == b || lex_lt(a, b, by_path) || lex_lt(b, a, by_path),
        !(lex_lt(a, b, by_path) && lex_lt(b, a, by_path)),
    decreases a.len(),
{
    if a.len() == 0 || b.len() == 0 {
        if a.len() == 0 && b.len() == 0 {
            assert(a =~= b);
        }
    } else if a[0] == b[0] {
        lemma_lex_total(a.drop_first(), b.drop_first(), by_path);
        if a.drop_first() == b.drop_first() {
            assert(a =~= seq![a[0]] + a.drop_first());
            assert(b =~= seq![b[0]] + b.drop_first());
        }
    } else {
        lemma_rank_injective(a[0], b[0], by_path);
    }
}

/// Different characters have different ranks.
pub proof fn lemma_rank_injective(x: char, y: char, by_path: bool)
    requires
        x != y,
    ensures
        rank(x, by_path) != rank(y, by_path),
{
    assert(x as int != y as int) by {
        if x as int == y as int {
            assert(x as u32 as char == y as u32 as char);
        }
    }
}

/// The order is transitive.
pub proof fn lemma_lex_transitive(a: Seq<char>, b: Seq<char>, c: Seq<char>, by_path: bool)
    requires
        lex_lt(a, b, by_path),
        lex_lt(b, c, by_path),
    ensures
        lex_lt(a, c, by_path),
    decreases a.len(),
{
    if a.len() > 0 && a[0] == b[0] && b[0] == c[0] {
        lemma_lex_transitive(a.drop_first(), b.drop_first(), c.drop_first(), by_path);
    }
}

/// Strings that agree on their first `k` characters compare as their
/// remainders do.
pub proof fn lemma_lex_skip_common(a: Seq<char>, b: Seq<char>, k: int, by_path: bool)
    requires
        0 <= k <= a.len(),
        k <= b.len(),
        a.take(k) == b.take(k),
    ensures
        lex_lt(a, b, by_path) == lex_lt(a.skip(k), b.skip(k), by_path),
        (a == b) == (a.skip(k) == b.skip(k)),
    decreases k,
{
    if k == 0 {
        assert(a.skip(0) =~= a);
        assert(b.skip(0) =~= b);
    } else {
        assert(a[0] == a.take(k)[0]);
        assert(b[0] == b.take(k)[0]);
        assert(a.drop_first().take(k - 1) =~= a.take(k).drop_first());
        assert(b.drop_first().take(k - 1) =~= b.take(k).drop_first());
        lemma_lex_skip_common(a.drop_first(), b.drop_first(), k - 1, by_path);
        assert(a.drop_first().skip(k - 1) =~= a.skip(k));
        assert(b.drop_first().skip(k - 1) =~= b.skip(k));
        if a.skip(k) == b.skip(k) {
            assert(a =~= a.take(k) + a.skip(k));
            assert(b =~= b.take(k) + b.skip(k));
        }
    }
}

/// The rank of a character, moved up by one so that it has no sign.
fn rank_of(c: char, by_path: bool) -> (r: u32)
    ensures
        r == rank(c, by_path) + 1,
{
    if by_path && c == '/' {
        0
    } else {
        c as u32 + 1
    }
}

/// Compares two strings in one pass over both.
pub fn compare(a: &str, b: &str, by_path: bool) -> (r: Sign)
    ensures
        r == sign_of(a@, b@, by_path),
{
    let mut ia = a.chars();
    let mut ib = b.chars();
    let ghost mut k: int = 0;
    loop
        invariant
            0 <= k <= a@.len(),
            k <= b@.len(),
            a@.take(k) == b@.take(k),
            ia.remaining() == a@.skip(k),
            ib.remaining() == b@.skip(k),
        decreases a@.len() - k,
    {
        let ca = ia.next();
        let cb = ib.next();
        proof {
            lemma_lex_skip_common(a@, b@, k, by_path);
        }
        match (ca, cb) {
            (None, None) => {
                assert(a@.skip(k) =~= b@.skip(k));
                return Sign::Same;
            },
            (None, Some(_)) => {
                return Sign::Before;
            },
            (Some(_), None) => {
                return Sign::After;
            },
            (Some(x), Some(y)) => {
                if x != y {
                    let before = rank_of(x, by_path) < rank_of(y, by_path);
                    proof {
                        lemma_rank_injective(x, y, by_path);
                        assert(a@.skip(k)[0] == x && b@.skip(k)[0] == y);
                        assert(a@ != b@);
                    }
                    return if before {
                        Sign::Before
                    } else {
                        Sign::After
                    };
                }
                proof {
                    assert(a@.take(k + 1) =~= a@.take(k).push(x));
                    assert(b@.take(k + 1) =~= b@.take(k).push(y));
                    assert(a@.skip(k).drop_first() =~= a@.skip(k + 1));
                    assert(b@.skip(k).drop_first() =~= b@.skip(k + 1));
                    k = k + 1;
                }
            },
        }
    }
}

/// Whether two strings hold the same characters.
pub fn same(a: &str, b: &str) -> (r: bool)
    ensures
        r == (a@ == b@),
{
    match compare(a, b, false) {
        Sign::Same => true,
        _ => {
            proof {
                lemma_lex_irreflexive(a@, false);
            }
            false
        },
    }
}

/// The components of a path: the texts between its separators. A path
/// without a separator is one component, and the empty path is the empty
/// component.
pub open spec fn components(p: Seq<char>) -> Seq<Seq<char>>
    decreases p.len(),
{
    if p.len() == 0 {
        seq![Seq::empty()]
    } else {
        let rest = components(p.drop_first());
        if p[0] == '/' {
            seq![Seq::empty()] + rest
        } else {
            seq![seq![p[0]] + rest[0]] + rest.drop_first()
        }
    }
}

/// One list of components comes strictly before another: at the first place
/// where they differ it holds the component that comes first character by
/// character, or it ends there and the other goes on.
pub open spec fn components_lt(a: Seq<Seq<char>>, b: Seq<Seq<char>>) -> bool
    decreases a.len(),
{
    if b.len() == 0 {
        false
    } else if a.len() == 0 {
        true
    } else if a[0] == b[0] {
        components_lt(a.drop_first(), b.drop_first())
    } else {
        lex_lt(a[0], b[0], false)
    }
}

proof fn lemma_components_nonempty(p: Seq<char>)
    ensures
        components(p).len() >= 1,
    decreases p.len(),
{
    if p.len() > 0 {
        lemma_components_nonempty(p.drop_first());
    }
}

proof fn lemma_rank_floor(c: char)
    ensures
        rank(c, false) >= 0,
        c != '/' ==> rank(c, true) == rank(c, false),
        rank('/', true) == -1,
{
}

/// The order of paths is the order of their components: a path comes before
/// another exactly if its list of components does.
#[verifier::rlimit(40)]
pub proof fn lemma_path_order_by_components(a: Seq<char>, b: Seq<char>)
    ensures
        path_lt(a, b) == components_lt(components(a), components(b)),
        (a == b) == (components(a) == components(b)),
    decreases a.len() + b.len(),
{
    let ca = components(a);
    let cb = components(b);
    let none = Seq::<char>::empty();
    lemma_components_nonempty(a);
    lemma_components_nonempty(b);
    if a.len() == 0 && b.len() == 0 {
        assert(a =~= b);
        assert(ca.drop_first().len() == 0);
        assert(!components_lt(ca.drop_first(), cb.drop_first()));
    } else if a.len() == 0 {
        let rb = components(b.drop_first());
        lemma_components_nonempty(b.drop_first());
        assert(ca =~= seq![none]);
        assert(ca.drop_first().len() == 0);
        if b[0] == '/' {
            assert(cb[0] =~= none);
            assert(cb.drop_first() =~= rb);
            assert(components_lt(ca.drop_first(), cb.drop_first()));
            assert(ca.len() != cb.len());
        } else {
            assert(cb[0].len() > 0);
            assert(lex_lt(none, cb[0], false));
            assert(ca[0] != cb[0]);
        }
        assert(components_lt(ca, cb));
    } else if b.len() == 0 {
        let ra = components(a.drop_first());
        lemma_components_nonempty(a.drop_first());
        assert(cb =~= seq![none]);
        assert(cb.drop_first().len() == 0);
        if a[0] == '/' {
            assert(ca[0] =~= none);
            assert(ca.drop_first() =~= ra);
            assert(!components_lt(ca.drop_first(), cb.drop_first()));
            assert(ca.len() != cb.len());
        } else {
            assert(ca[0].len() > 0);
            assert(!lex_lt(ca[0], none, false));
            assert(ca[0] != cb[0]);
        }
        assert(!components_lt(ca, cb));
    } else {
        let ra = components(a.drop_first());
        let rb = components(b.drop_first());
        lemma_components_nonempty(a.drop_first());
        lemma_components_nonempty(b.drop_first());
        lemma_path_order_by_components(a.drop_first(), b.drop_first());
        lemma_rank_floor(a[0]);
        lemma_rank_floor(b[0]);
        if a[0] == '/' && b[0] == '/' {
            assert(ca[0] =~= none);
            assert(cb[0] =~= none);
            assert(ca.drop_first() =~= ra);
            assert(cb.drop_first() =~= rb);
            if ra == rb {
                assert(a =~= seq!['/'] + a.drop_first());
                assert(b =~= seq!['/'] + b.drop_first());
            }
            if ca == cb {
                assert(ra == rb);
            }
            assert(path_lt(a, b) == components_lt(ca, cb));
        } else if a[0] == '/' {
            assert(ca[0] =~= none);
            assert(cb[0].len() > 0);
            assert(lex_lt(none, cb[0], false));
            assert(ca[0] != cb[0]);
            assert(path_lt(a, b));
            assert(components_lt(ca, cb));
        } else if b[0] == '/' {
            assert(cb[0] =~= none);
            assert(ca[0].len() > 0);
            assert(!lex_lt(ca[0], none, false));
            assert(ca[0] != cb[0]);
            assert(!path_lt(a, b));
            assert(!components_lt(ca, cb));
        } else if a[0] != b[0] {
            assert(ca[0][0] == a[0]);
            assert(cb[0][0] == b[0]);
            assert(ca[0] != cb[0]);
            assert(lex_lt(ca[0], cb[0], false) == (rank(a[0], false) < rank(b[0], false)));
            assert(path_lt(a, b) == components_lt(ca, cb));
        } else {
            let c = a[0];
            assert(ca[0] == seq![c] + ra[0]);
            assert(cb[0] == seq![c] + rb[0]);
            assert(ca[0].drop_first() =~= ra[0]);
            assert(cb[0].drop_first() =~= rb[0]);
            assert(ca.drop_first() =~= ra.drop_first());
            assert(cb.drop_first() =~= rb.drop_first());
            assert(ca[0][0] == c && cb[0][0] == c);
            if ra[0] == rb[0] {
                assert(ca[0] == cb[0]);
                assert(components_lt(ca, cb) == components_lt(ra.drop_first(), rb.drop_first()));
                assert(components_lt(ra, rb) == components_lt(ra.drop_first(), rb.drop_first()));
            } else {
                assert(ca[0] != cb[0]);
                assert(lex_lt(ca[0], cb[0], false) == lex_lt(ra[0], rb[0], false));
                assert(components_lt(ca, cb) == lex_lt(ca[0], cb[0], false));
                assert(components_lt(ra, rb) == lex_lt(ra[0], rb[0], false));
            }
            assert(path_lt(a, b) == path_lt(a.drop_first(), b.drop_first()));
            if ra == rb {
                assert(a =~= seq![c] + a.drop_first());
                assert(b =~= seq![c] + b.drop_first());
            }
            if ca == cb {
                assert(ra =~= seq![ra[0]] + ra.drop_first());
                assert(rb =~= seq![rb[0]] + rb.drop_first());
            }
            assert(path_lt(a, b) == components_lt(ca, cb));
        }
    }
}

} // verus!
