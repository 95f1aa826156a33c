use vstd::prelude::*;

verus! {

/// Whether `needle` occurs as a contiguous part of `hay`.
pub open spec fn seq_contains<A>(hay: Seq<A>, needle: Seq<A>) -> bool {
    exists|i: int| 0 <= i && i + needle.len() <= hay.len() && #[trigger] hay.subrange(i, i + needle.len()) == needle
}

/// The characters of a string, in order.
pub fn chars_of(s: &str) -> (out: Vec<char>)
    ensures
        out@ == s@,
{
    let n = s.unicode_len();
    let mut out: Vec<char> = Vec::new();
    let mut i: usize = 0;
    while i < n
        invariant
            n == s@.len(),
            i <= n,
            out@ == s@.subrange(0, i as int),
        decreases n - i,
    {
        out.push(s.get_char(i));
        i = i + 1;
    }
    assert(out@ == s@);
    out
}

/// Whether the characters of `a` and `b` agree from position `at` on for
/// `len` characters.
fn chars_agree(a: &Vec<char>, at: usize, b: &Vec<char>) -> (r: bool)
    requires
        at + b@.len() <= a@.len(),
    ensures
        r == (a@.subrange(at as int, at + b@.len()) == b@),
{
    let mut j: usize = 0;
    while j < b.len()
        invariant
            at + b@.len() <= a.len(),
            j <= b@.len(),
            forall|k: int| 0 <= k < j ==> a@[at + k] == b@[k],
        decreases b@.len() - j,
    {
        if a[at + j] != b[j] {
            assert(a@.subrange(at as int, at + b@.len())[j as int] != b@[j as int]);
            return false;
        }
        j = j + 1;
    }
    assert(a@.subrange(at as int, at + b@.len()) =~= b@);
    true
}

/// Whether two strings hold the same characters.
pub fn str_eq(a: &str, b: &str) -> (r: bool)
    ensures
        r == (a@ == b@),
{
    let ca = chars_of(a);
    let cb = chars_of(b);
    if ca.len() != cb.len() {
        return false;
    }
    let r = chars_agree(&ca, 0, &cb);
    assert(ca@.subrange(0, cb@.len() as int) =~= ca@);
    r
}

/// Whether `needle` occurs in `hay`.
pub fn str_contains(hay: &str, needle: &str) -> (r: bool)
    ensures
        r == seq_contains(hay@, needle@),
{
    let ch = chars_of(hay);
    let cn = chars_of(needle);
    if cn.len() > ch.len() {
        return false;
    }
    if cn.len() == 0 {
        assert(hay@.subrange(0int, 0int + needle@.len()) =~= needle@);
        return true;
    }
    let last = ch.len() - cn.len();
    let mut i: usize = 0;
    while i <= last
        invariant
            last == ch@.len() - cn@.len(),
            0 < cn@.len() <= ch@.len(),
            ch@.len() == ch.len(),
            i <= last + 1,
            ch@ == hay@,
            cn@ == needle@,
            forall|k: int| 0 <= k < i ==> #[trigger] ch@.subrange(k, k + cn@.len()) != cn@,
        decreases last + 1 - i,
    {
        if chars_agree(&ch, i, &cn) {
            return true;
        }
        i = i + 1;
    }
    assert forall|k: int| 0 <= k && k + cn@.len() <= ch@.len() implies #[trigger] ch@.subrange(k, k + cn@.len()) != cn@ by {
        assert(k < i);
    }
    false
}

} // verus!

verus! {

/// The items joined into one text, `sep` between each two.
pub open spec fn seq_join(items: Seq<Seq<char>>, sep: Seq<char>) -> Seq<char>
    decreases items.len(),
{
    if items.len() == 0 {
        Seq::empty()
    } else if items.len() == 1 {
        items[0]
    } else {
        seq_join(items.drop_last(), sep) + sep + items.last()
    }
}

/// Joins the strings with `sep` between each two.
pub fn join_strings(items: &Vec<String>, sep: &str) -> (r: String)
    ensures
        r@ == seq_join(items@.map_values(|s: String| s@), sep@),
{
    let ghost views = items@.map_values(|s: String| s@);
    let mut r = String::new();
    let mut i: usize = 0;
    assert(views.take(0) =~= Seq::<Seq<char>>::empty());
    while i < items.len()
        invariant
            views == items@.map_values(|s: String| s@),
            i <= items@.len(),
            r@ == seq_join(views.take(i as int), sep@),
        decreases items@.len() - i,
    {
        assert(views.take(i + 1).drop_last() =~= views.take(i as int));
        assert(views.take(i + 1).last() == items@[i as int]@);
        if i > 0 {
            r.append(sep);
        } else {
            assert(r@ == Seq::<char>::empty());
            assert(views.take(1) =~= seq![items@[0]@]);
        }
        r.append(items[i].as_str());
        i = i + 1;
    }
    assert(views.take(items@.len() as int) =~= views);
    r
}

/// The pieces of a text between occurrences of `sep`, empty pieces included:
/// `"a//b/"` split on `/` gives `a`, ``, `b`, ``.
pub open spec fn split_on(s: Seq<char>, sep: char) -> Seq<Seq<char>>
    decreases s.len(),
{
    if s.len() == 0 {
        seq![Seq::empty()]
    } else {
        let p = split_on(s.drop_last(), sep);
        if s.last() == sep {
            p.push(Seq::empty())
        } else {
            p.update(p.len() - 1, p.last().push(s.last()))
        }
    }
}

/// A text always splits into at least one piece.
pub proof fn lemma_split_on_nonempty(s: Seq<char>, sep: char)
    ensures
        split_on(s, sep).len() >= 1,
    decreases s.len(),
{
    if s.len() > 0 {
        lemma_split_on_nonempty(s.drop_last(), sep);
    }
}

/// Joining the pieces of a split with the separator gives the text back.
pub proof fn lemma_join_split(s: Seq<char>, sep: char)
    ensures
        seq_join(split_on(s, sep), seq![sep]) == s,
    decreases s.len(),
{
    if s.len() == 0 {
        assert(split_on(s, sep) =~= seq![Seq::<char>::empty()]);
        assert(s =~= Seq::<char>::empty());
    } else {
        let d = s.drop_last();
        let c = s.last();
        let p = split_on(d, sep);
        lemma_join_split(d, sep);
        lemma_split_on_nonempty(d, sep);
        let q = split_on(s, sep);
        if c == sep {
            assert(q.drop_last() =~= p);
            assert(s =~= d + seq![sep] + Seq::<char>::empty());
        } else if p.len() == 1 {
            assert(q =~= seq![p[0].push(c)]);
            assert(s =~= p[0].push(c));
        } else {
            assert(q.drop_last() =~= p.drop_last());
            let j = seq_join(p.drop_last(), seq![sep]);
            assert(seq_join(q, seq![sep]) == j + seq![sep] + p.last().push(c));
            assert(j + seq![sep] + p.last().push(c) =~= (j + seq![sep] + p.last()).push(c));
            assert(s =~= d.push(c));
        }
    }
}

/// Texts with the same pieces are the same text.
pub proof fn lemma_split_on_injective(a: Seq<char>, b: Seq<char>, sep: char)
    requires
        split_on(a, sep) == split_on(b, sep),
    ensures
        a == b,
{
    lemma_join_split(a, sep);
    lemma_join_split(b, sep);
}

/// Appending text without the separator extends the last piece.
pub proof fn lemma_split_on_append_piece(s: Seq<char>, n: Seq<char>, sep: char)
    requires
        !n.contains(sep),
    ensures
        split_on(s + n, sep) == split_on(s, sep).update(split_on(s, sep).len() - 1, split_on(s, sep).last() + n),
    decreases n.len(),
{
    lemma_split_on_nonempty(s, sep);
    let p = split_on(s, sep);
    if n.len() == 0 {
        assert(s + n =~= s);
        assert(p.last() + n =~= p.last());
        assert(p.update(p.len() - 1, p.last()) =~= p);
    } else {
        let m = n.drop_last();
        assert(!m.contains(sep)) by {
            if m.contains(sep) {
                let i = choose|i: int| 0 <= i < m.len() && m[i] == sep;
                assert(n[i] == sep);
            }
        }
        lemma_split_on_append_piece(s, m, sep);
        assert((s + n).drop_last() =~= s + m);
        assert((s + n).last() == n.last());
        assert(n.last() != sep) by {
            assert(n[n.len() - 1] == n.last());
        }
        let q = split_on(s + m, sep);
        assert(q.len() == p.len());
        assert(q.last() == p.last() + m);
        assert((p.last() + m).push(n.last()) =~= p.last() + n);
        assert(q.update(q.len() - 1, q.last().push(n.last())) =~= p.update(p.len() - 1, p.last() + n));
    }
}

/// Appending the separator starts a new, empty piece.
pub proof fn lemma_split_on_append_sep(s: Seq<char>, sep: char)
    ensures
        split_on(s.push(sep), sep) == split_on(s, sep).push(Seq::empty()),
{
    assert(s.push(sep).drop_last() =~= s);
}

/// The texts of a vector of pieces.
pub open spec fn pieces_view(v: Seq<Vec<char>>) -> Seq<Seq<char>> {
    v.map_values(|p: Vec<char>| p@)
}

/// Splits the characters at each occurrence of `sep`.
pub fn split_chars(s: &Vec<char>, sep: char) -> (r: Vec<Vec<char>>)
    ensures
        pieces_view(r@) == split_on(s@, sep),
{
    let mut done: Vec<Vec<char>> = Vec::new();
    let mut current: Vec<char> = Vec::new();
    let mut i: usize = 0;
    assert(s@.take(0) =~= Seq::<char>::empty());
    assert(pieces_view(done@).push(current@) =~= seq![Seq::<char>::empty()]);
    while i < s.len()
        invariant
            i <= s@.len(),
            pieces_view(done@).push(current@) == split_on(s@.take(i as int), sep),
        decreases s@.len() - i,
    {
        let c = s[i];
        let ghost before = pieces_view(done@);
        let ghost cur = current@;
        assert(s@.take(i + 1).drop_last() =~= s@.take(i as int));
        assert(s@.take(i + 1).last() == c);
        if c == sep {
            done.push(current);
            current = Vec::new();
            assert(pieces_view(done@) =~= before.push(cur));
            assert(pieces_view(done@).push(current@) =~= before.push(cur).push(Seq::empty()));
        } else {
            current.push(c);
            assert(pieces_view(done@).push(current@) =~= before.push(cur).update(before.len() as int, cur.push(c)));
        }
        i = i + 1;
    }
    let ghost before = pieces_view(done@);
    let ghost cur = current@;
    done.push(current);
    assert(pieces_view(done@) =~= before.push(cur));
    assert(s@.take(s@.len() as int) =~= s@);
    done
}

} // verus!
