use vstd::prelude::*;

verus! {

/// Whether `f` is a three-way comparison of a total order: it answers -1, 0
/// or 1, swapping its arguments negates the answer, 0 means equal, and
/// "less than" is transitive.
pub open spec fn is_comparator<T>(f: spec_fn(T, T) -> int) -> bool {
    &&& forall|x: T, y: T| -1 <= #[trigger] f(x, y) <= 1
    &&& forall|x: T, y: T| #[trigger] f(x, y) == -f(y, x)
    &&& forall|x: T, y: T| #[trigger] f(x, y) == 0 <==> x == y
    &&& forall|x: T, y: T, z: T| #[trigger] f(x, y) < 0 && #[trigger] f(y, z) < 0 ==> f(x, z) < 0
}

/// Lexicographic comparison of sequences by the item comparison `f`: the
/// first differing item decides, and a proper prefix comes first.
pub open spec fn lex_order<T>(xs: Seq<T>, ys: Seq<T>, f: spec_fn(T, T) -> int) -> int
    decreases xs.len(),
{
    if xs.len() == 0 {
        if ys.len() == 0 {
            0
        } else {
            -1
        }
    } else if ys.len() == 0 {
        1
    } else if f(xs[0], ys[0]) != 0 {
        f(xs[0], ys[0])
    } else {
        lex_order(xs.drop_first(), ys.drop_first(), f)
    }
}

/// Lexicographic comparison answers -1, 0 or 1.
pub proof fn lemma_lex_range<T>(xs: Seq<T>, ys: Seq<T>, f: spec_fn(T, T) -> int)
    requires
        is_comparator(f),
    ensures
        -1 <= lex_order(xs, ys, f) <= 1,
    decreases xs.len(),
{
    if xs.len() > 0 && ys.len() > 0 && f(xs[0], ys[0]) == 0 {
        lemma_lex_range(xs.drop_first(), ys.drop_first(), f);
    }
}

/// Swapping the sequences negates their lexicographic comparison.
pub proof fn lemma_lex_antisym<T>(xs: Seq<T>, ys: Seq<T>, f: spec_fn(T, T) -> int)
    requires
        is_comparator(f),
    ensures
        lex_order(xs, ys, f) == -lex_order(ys, xs, f),
    decreases xs.len(),
{
    if xs.len() > 0 && ys.len() > 0 {
        assert(f(xs[0], ys[0]) == -f(ys[0], xs[0]));
        if f(xs[0], ys[0]) == 0 {
            lemma_lex_antisym(xs.drop_first(), ys.drop_first(), f);
        }
    }
}

/// Two sequences compare equal exactly when they are the same sequence.
pub proof fn lemma_lex_zero<T>(xs: Seq<T>, ys: Seq<T>, f: spec_fn(T, T) -> int)
    requires
        is_comparator(f),
    ensures
        lex_order(xs, ys, f) == 0 <==> xs == ys,
    decreases xs.len(),
{
    if xs.len() > 0 && ys.len() > 0 {
        assert(f(xs[0], ys[0]) == 0 <==> xs[0] == ys[0]);
        lemma_lex_zero(xs.drop_first(), ys.drop_first(), f);
        if xs[0] == ys[0] && xs.drop_first() == ys.drop_first() {
            assert(xs =~= seq![xs[0]] + xs.drop_first());
            assert(ys =~= seq![ys[0]] + ys.drop_first());
        }
        if xs == ys {
            assert(xs.drop_first() =~= ys.drop_first());
        }
    } else if xs.len() == 0 && ys.len() == 0 {
        assert(xs =~= ys);
    }
}

/// "Lexicographically before" is transitive.
pub proof fn lemma_lex_transitive<T>(xs: Seq<T>, ys: Seq<T>, zs: Seq<T>, f: spec_fn(T, T) -> int)
    requires
        is_comparator(f),
        lex_order(xs, ys, f) < 0,
        lex_order(ys, zs, f) < 0,
    ensures
        lex_order(xs, zs, f) < 0,
    decreases xs.len(),
{
    if xs.len() > 0 && ys.len() > 0 && zs.len() > 0 {
        let a = f(xs[0], ys[0]);
        let b = f(ys[0], zs[0]);
        assert(a == 0 <==> xs[0] == ys[0]);
        assert(b == 0 <==> ys[0] == zs[0]);
        assert(-1 <= a <= 1 && -1 <= b <= 1);
        if a == 0 && b == 0 {
            lemma_lex_transitive(xs.drop_first(), ys.drop_first(), zs.drop_first(), f);
        } else if a < 0 && b < 0 {
            assert(f(xs[0], zs[0]) < 0);
        } else if a == 0 {
            assert(f(xs[0], zs[0]) == b);
        } else if b == 0 {
            assert(f(xs[0], zs[0]) == a);
        }
    }
}

/// Lexicographic comparison by a comparator is itself a comparator.
pub proof fn lemma_lex_comparator<T>(f: spec_fn(T, T) -> int)
    requires
        is_comparator(f),
    ensures
        is_comparator(|xs: Seq<T>, ys: Seq<T>| lex_order(xs, ys, f)),
{
    let g = |xs: Seq<T>, ys: Seq<T>| lex_order(xs, ys, f);
    assert forall|x: Seq<T>, y: Seq<T>| -1 <= #[trigger] g(x, y) <= 1 by {
        lemma_lex_range(x, y, f);
    }
    assert forall|x: Seq<T>, y: Seq<T>| #[trigger] g(x, y) == -g(y, x) by {
        lemma_lex_antisym(x, y, f);
    }
    assert forall|x: Seq<T>, y: Seq<T>| #[trigger] g(x, y) == 0 <==> x == y by {
        lemma_lex_zero(x, y, f);
    }
    assert forall|x: Seq<T>, y: Seq<T>, z: Seq<T>| #[trigger] g(x, y) < 0 && #[trigger] g(y, z) < 0 implies g(x, z) < 0 by {
        lemma_lex_transitive(x, y, z, f);
    }
}

/// Comparison of integers.
pub open spec fn int_order(a: int, b: int) -> int {
    if a < b {
        -1
    } else if a > b {
        1
    } else {
        0
    }
}

/// Comparison of characters by their code points.
pub open spec fn char_order(a: char, b: char) -> int {
    int_order(a as int, b as int)
}

/// Characters are totally ordered by code point.
pub proof fn lemma_char_comparator()
    ensures
        is_comparator(|a: char, b: char| char_order(a, b)),
{
    let f = |a: char, b: char| char_order(a, b);
    assert forall|x: char, y: char| #[trigger] f(x, y) == 0 <==> x == y by {
    }
}

/// Comparison of texts: lexicographic by code point (the order of `str`).
pub open spec fn text_order(a: Seq<char>, b: Seq<char>) -> int {
    lex_order(a, b, |x: char, y: char| char_order(x, y))
}

/// Texts are totally ordered.
pub proof fn lemma_str_comparator()
    ensures
        is_comparator(|a: Seq<char>, b: Seq<char>| text_order(a, b)),
{
    lemma_char_comparator();
    lemma_lex_comparator(|x: char, y: char| char_order(x, y));
    let f = |a: Seq<char>, b: Seq<char>| text_order(a, b);
    let g = |xs: Seq<char>, ys: Seq<char>| lex_order(xs, ys, |x: char, y: char| char_order(x, y));
    assert forall|x: Seq<char>, y: Seq<char>| #[trigger] f(x, y) == g(x, y) by {}
}

/// The comparator laws of the text order, stated for given texts.
pub proof fn lemma_text_order(a: Seq<char>, b: Seq<char>, c: Seq<char>)
    ensures
        -1 <= text_order(a, b) <= 1,
        text_order(a, b) == -text_order(b, a),
        text_order(a, b) == 0 <==> a == b,
        text_order(a, b) < 0 && text_order(b, c) < 0 ==> text_order(a, c) < 0,
{
    lemma_char_comparator();
    let f = |x: char, y: char| char_order(x, y);
    lemma_lex_range(a, b, f);
    lemma_lex_antisym(a, b, f);
    lemma_lex_zero(a, b, f);
    if text_order(a, b) < 0 && text_order(b, c) < 0 {
        lemma_lex_transitive(a, b, c, f);
    }
}

/// Compares two texts.
pub fn compare_text(a: &Vec<char>, b: &Vec<char>) -> (r: i8)
    ensures
        r as int == text_order(a@, b@),
{
    let mut i: usize = 0;
    assert(a@.skip(0) =~= a@);
    assert(b@.skip(0) =~= b@);
    loop
        invariant
            i <= a@.len(),
            i <= b@.len(),
            text_order(a@, b@) == text_order(a@.skip(i as int), b@.skip(i as int)),
        decreases a@.len() - i,
    {
        let ghost sa = a@.skip(i as int);
        let ghost sb = b@.skip(i as int);
        if i == a.len() {
            return if i == b.len() { 0 } else { -1 };
        }
        if i == b.len() {
            return 1;
        }
        let x: char = a[i];
        let y: char = b[i];
        assert(x == sa[0] && y == sb[0]);
        if x < y {
            return -1;
        }
        if x > y {
            return 1;
        }
        assert(sa.drop_first() =~= a@.skip(i + 1));
        assert(sb.drop_first() =~= b@.skip(i + 1));
        i = i + 1;
    }
}

} // verus!
