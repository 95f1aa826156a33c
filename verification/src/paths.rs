use vstd::prelude::*;
use crate::text::{split_on, lemma_split_on_nonempty, lemma_split_on_append_piece, lemma_split_on_append_sep, pieces_view, split_chars};
use crate::order::{is_comparator, lex_order, int_order, text_order, compare_text, lemma_text_order, lemma_lex_range, lemma_lex_antisym, lemma_lex_zero, lemma_lex_transitive};

verus! {

/// The kind of the root directory component (a leading `/`).
pub const ROOT_DIR: u8 = 1;
/// The kind of a leading `.` component.
pub const CUR_DIR: u8 = 2;
/// The kind of a `..` component.
pub const PARENT_DIR: u8 = 3;
/// The kind of a component that names a file or directory.
pub const NORMAL: u8 = 4;

/// The components that one piece contributes: none for an empty piece or
/// `.`, a parent component for `..`, else a normal component named by it.
pub open spec fn piece_components(piece: Seq<char>) -> Seq<(u8, Seq<char>)> {
    if piece.len() == 0 || piece == seq!['.'] {
        Seq::empty()
    } else if piece == seq!['.', '.'] {
        seq![(PARENT_DIR, Seq::empty())]
    } else {
        seq![(NORMAL, piece)]
    }
}

/// The components that a list of pieces contributes, in order.
pub open spec fn body_components(pieces: Seq<Seq<char>>) -> Seq<(u8, Seq<char>)>
    decreases pieces.len(),
{
    if pieces.len() == 0 {
        Seq::empty()
    } else {
        body_components(pieces.drop_last()) + piece_components(pieces.last())
    }
}

/// The components of a path, as `std::path::Path::components` documents them
/// for Unix paths: a root component for a leading `/`, a current-directory
/// component for a path that starts with `.` followed by `/` or its end,
/// then one component per piece between separators, where empty pieces
/// (repeated or trailing separators) and `.` pieces are left out.
pub open spec fn path_components(path: Seq<char>) -> Seq<(u8, Seq<char>)> {
    let head: Seq<(u8, Seq<char>)> = if path.len() > 0 && path[0] == '/' {
        seq![(ROOT_DIR, Seq::empty())]
    } else if split_on(path, '/')[0] == seq!['.'] {
        seq![(CUR_DIR, Seq::empty())]
    } else {
        Seq::empty()
    };
    head + body_components(split_on(path, '/'))
}

/// Appending a separator and a piece to a non-empty path appends that
/// piece's components.
proof fn lemma_path_append(a: Seq<char>, n: Seq<char>)
    requires
        a.len() > 0,
        !n.contains('/'),
    ensures
        path_components(a + seq!['/'] + n) == path_components(a) + piece_components(n),
{
    let b = a.push('/');
    assert(a + seq!['/'] + n =~= b + n);
    lemma_split_on_nonempty(a, '/');
    lemma_split_on_append_sep(a, '/');
    lemma_split_on_append_piece(b, n, '/');
    let p = split_on(a, '/');
    assert(Seq::<char>::empty() + n =~= n);
    assert(split_on(b + n, '/') =~= p.push(n));
    assert(p.push(n).drop_last() =~= p);
    assert((b + n)[0] == a[0]);
    assert(p.push(n)[0] == p[0]);
    assert(body_components(p.push(n)) == body_components(p) + piece_components(n));
    let h = if a.len() > 0 && a[0] == '/' {
        seq![(ROOT_DIR, Seq::<char>::empty())]
    } else if p[0] == seq!['.'] {
        seq![(CUR_DIR, Seq::<char>::empty())]
    } else {
        Seq::<(u8, Seq<char>)>::empty()
    };
    assert(h + (body_components(p) + piece_components(n)) =~= (h + body_components(p)) + piece_components(n));
}

/// The components of the empty path, of `/`, of `/` followed by a single
/// name, and of a single piece: none; the root; the root and the name; and
/// none for an empty piece, the current directory for `.`, the parent for
/// `..`, else the name.
pub proof fn lemma_path_base_cases(n: Seq<char>)
    requires
        !n.contains('/'),
    ensures
        path_components(Seq::empty()).len() == 0,
        path_components(seq!['/']) == seq![(ROOT_DIR, Seq::<char>::empty())],
        n.len() > 0 && n != seq!['.'] && n != seq!['.', '.'] ==> path_components(seq!['/'] + n) == seq![(ROOT_DIR, Seq::<char>::empty()), (NORMAL, n)],
        n.len() > 0 && n != seq!['.'] && n != seq!['.', '.'] ==> path_components(n) == seq![(NORMAL, n)],
        path_components(seq!['.']) == seq![(CUR_DIR, Seq::<char>::empty())],
        path_components(seq!['.', '.']) == seq![(PARENT_DIR, Seq::<char>::empty())],
{
    let e = Seq::<char>::empty();
    lemma_split_on_append_piece(e, n, '/');
    assert(e + n =~= n);
    assert(split_on(e, '/') =~= seq![e]);
    assert(split_on(n, '/') =~= seq![n]);
    assert(seq![n].drop_last() =~= Seq::<Seq<char>>::empty());
    assert(body_components(Seq::<Seq<char>>::empty()) =~= Seq::<(u8, Seq<char>)>::empty());
    assert(body_components(seq![n]) == body_components(Seq::<Seq<char>>::empty()) + piece_components(n));
    assert(body_components(seq![n]) =~= piece_components(n));
    let r = seq!['/'];
    assert(r.drop_last() =~= e);
    assert(split_on(r, '/') =~= seq![e, e]);
    assert(seq![e, e].drop_last() =~= seq![e]);
    assert(seq![e].drop_last() =~= Seq::<Seq<char>>::empty());
    assert(piece_components(e) =~= Seq::<(u8, Seq<char>)>::empty());
    assert(body_components(seq![e]) == body_components(Seq::<Seq<char>>::empty()) + piece_components(e));
    assert(body_components(seq![e]) =~= Seq::<(u8, Seq<char>)>::empty());
    assert(body_components(seq![e, e]) == body_components(seq![e]) + piece_components(e));
    assert(body_components(seq![e, e]) =~= Seq::<(u8, Seq<char>)>::empty());
    assert(path_components(r) =~= seq![(ROOT_DIR, e)]);
    lemma_split_on_append_piece(r, n, '/');
    assert(split_on(r + n, '/') =~= seq![e, n]);
    assert(seq![e, n].drop_last() =~= seq![e]);
    assert((r + n)[0] == '/');
    if n.len() > 0 && n != seq!['.'] && n != seq!['.', '.'] {
        assert(path_components(r + n) =~= seq![(ROOT_DIR, e), (NORMAL, n)]);
        assert(path_components(n) =~= seq![(NORMAL, n)]);
    }
    let d = seq!['.'];
    assert(d.drop_last() =~= e);
    assert(split_on(d, '/') =~= seq![d]);
    assert(seq![d].drop_last() =~= Seq::<Seq<char>>::empty());
    assert(path_components(d) =~= seq![(CUR_DIR, e)]);
    let dd = seq!['.', '.'];
    assert(dd.drop_last() =~= d);
    assert(dd.last() == '.');
    assert(d.push('.') =~= dd);
    assert(split_on(dd, '/') =~= seq![dd]);
    assert(seq![dd].drop_last() =~= Seq::<Seq<char>>::empty());
    assert(dd != d) by {
        assert(dd.len() != d.len());
    }
    assert(path_components(dd) =~= seq![(PARENT_DIR, e)]);
}

/// A trailing separator does not change a path's components.
pub proof fn lemma_trailing_separator_ignored(a: Seq<char>)
    requires
        a.len() > 0,
    ensures
        path_components(a.push('/')) == path_components(a),
{
    let e = Seq::<char>::empty();
    lemma_path_append(a, e);
    assert(a + seq!['/'] + e =~= a.push('/'));
    assert(path_components(a) + piece_components(e) =~= path_components(a));
}

/// A repeated separator does not change a path's components: `a//n` has the
/// components of `a/n`.
pub proof fn lemma_repeated_separator_ignored(a: Seq<char>, n: Seq<char>)
    requires
        a.len() > 0,
        !n.contains('/'),
    ensures
        path_components(a + seq!['/', '/'] + n) == path_components(a + seq!['/'] + n),
{
    lemma_trailing_separator_ignored(a);
    lemma_path_append(a.push('/'), n);
    lemma_path_append(a, n);
    assert(a.push('/') + seq!['/'] + n =~= a + seq!['/', '/'] + n);
}

/// An interior or trailing `.` component does not change a path's
/// components: `a/.` has the components of `a`.
pub proof fn lemma_dot_component_ignored(a: Seq<char>)
    requires
        a.len() > 0,
    ensures
        path_components(a + seq!['/', '.']) == path_components(a),
{
    let d = seq!['.'];
    assert(!d.contains('/')) by {
        if d.contains('/') {
            let i = choose|i: int| 0 <= i < d.len() && d[i] == '/';
        }
    }
    lemma_path_append(a, d);
    assert(a + seq!['/'] + d =~= a + seq!['/', '.']);
    assert(path_components(a) + piece_components(d) =~= path_components(a));
}

/// A `..` appended to a path adds a parent component.
pub proof fn lemma_parent_component_kept(a: Seq<char>)
    requires
        a.len() > 0,
    ensures
        path_components(a + seq!['/', '.', '.']) == path_components(a).push((PARENT_DIR, Seq::<char>::empty())),
{
    let dd = seq!['.', '.'];
    assert(!dd.contains('/')) by {
        if dd.contains('/') {
            let i = choose|i: int| 0 <= i < dd.len() && dd[i] == '/';
        }
    }
    lemma_path_append(a, dd);
    assert(a + seq!['/'] + dd =~= a + seq!['/', '.', '.']);
    assert(dd != seq!['.']) by {
        assert(dd.len() != 1);
    }
    assert(path_components(a) + piece_components(dd) =~= path_components(a).push((PARENT_DIR, Seq::<char>::empty())));
}

/// A name appended to a path adds a normal component with that name.
pub proof fn lemma_name_component_added(a: Seq<char>, n: Seq<char>)
    requires
        a.len() > 0,
        n.len() > 0,
        !n.contains('/'),
        n != seq!['.'],
        n != seq!['.', '.'],
    ensures
        path_components(a + seq!['/'] + n) == path_components(a).push((NORMAL, n)),
{
    lemma_path_append(a, n);
    assert(path_components(a) + piece_components(n) =~= path_components(a).push((NORMAL, n)));
}

/// The order of two components: by kind (root, current directory, parent,
/// normal), and normal components by their names.
pub open spec fn component_order(x: (u8, Seq<char>), y: (u8, Seq<char>)) -> int {
    if x.0 != y.0 {
        int_order(x.0 as int, y.0 as int)
    } else {
        text_order(x.1, y.1)
    }
}

/// Components are totally ordered.
pub proof fn lemma_component_comparator()
    ensures
        is_comparator(|x: (u8, Seq<char>), y: (u8, Seq<char>)| component_order(x, y)),
{
    let f = |x: (u8, Seq<char>), y: (u8, Seq<char>)| component_order(x, y);
    assert forall|x: (u8, Seq<char>), y: (u8, Seq<char>)| -1 <= #[trigger] f(x, y) <= 1 by {
        lemma_text_order(x.1, y.1, y.1);
    }
    assert forall|x: (u8, Seq<char>), y: (u8, Seq<char>)| #[trigger] f(x, y) == -f(y, x) by {
        lemma_text_order(x.1, y.1, y.1);
    }
    assert forall|x: (u8, Seq<char>), y: (u8, Seq<char>)| #[trigger] f(x, y) == 0 <==> x == y by {
        lemma_text_order(x.1, y.1, y.1);
    }
    assert forall|x: (u8, Seq<char>), y: (u8, Seq<char>), z: (u8, Seq<char>)|
        #[trigger] f(x, y) < 0 && #[trigger] f(y, z) < 0 implies f(x, z) < 0 by {
        lemma_text_order(x.1, y.1, z.1);
    }
}

/// The order of paths, as std orders `Path` values: lexicographic over their
/// components, a path coming before every path that extends it.
pub open spec fn path_order(a: Seq<char>, b: Seq<char>) -> int {
    lex_order(path_components(a), path_components(b), |x: (u8, Seq<char>), y: (u8, Seq<char>)| component_order(x, y))
}

/// Whether two texts name the same path (the same components), as std
/// compares `Path` values for equality.
pub open spec fn same_path(a: Seq<char>, b: Seq<char>) -> bool {
    path_components(a) == path_components(b)
}

/// Whether path `a` comes no later than path `b`.
pub open spec fn path_le(a: Seq<char>, b: Seq<char>) -> bool {
    path_order(a, b) <= 0
}

/// The comparator laws of the path order, stated for given paths; paths
/// compare equal exactly when they are the same path.
pub proof fn lemma_path_order(a: Seq<char>, b: Seq<char>, c: Seq<char>)
    ensures
        -1 <= path_order(a, b) <= 1,
        path_order(a, b) == -path_order(b, a),
        path_order(a, b) == 0 <==> same_path(a, b),
        path_order(a, b) < 0 && path_order(b, c) < 0 ==> path_order(a, c) < 0,
{
    lemma_component_comparator();
    let f = |x: (u8, Seq<char>), y: (u8, Seq<char>)| component_order(x, y);
    let (ca, cb, cc) = (path_components(a), path_components(b), path_components(c));
    lemma_lex_range(ca, cb, f);
    lemma_lex_antisym(ca, cb, f);
    lemma_lex_zero(ca, cb, f);
    if path_order(a, b) < 0 && path_order(b, c) < 0 {
        lemma_lex_transitive(ca, cb, cc, f);
    }
}

/// Any two paths are ordered one way or the other.
pub proof fn lemma_path_le_total(a: Seq<char>, b: Seq<char>)
    ensures
        path_le(a, b) || path_le(b, a),
{
    lemma_path_order(a, b, b);
}

/// The path order is transitive.
pub proof fn lemma_path_le_transitive(a: Seq<char>, b: Seq<char>, c: Seq<char>)
    requires
        path_le(a, b),
        path_le(b, c),
    ensures
        path_le(a, c),
{
    lemma_path_order(a, b, c);
    lemma_path_order(b, c, c);
}

/// Two paths that each come no later than the other are the same path.
pub proof fn lemma_path_le_antisymmetric(a: Seq<char>, b: Seq<char>)
    requires
        path_le(a, b),
        path_le(b, a),
    ensures
        same_path(a, b),
{
    lemma_path_order(a, b, b);
}

/// One component of a path: its kind and, for a normal component, its name.
struct Component {
    kind: u8,
    name: Vec<char>,
}

/// The components of a vector as plain values.
spec fn components_view(v: Seq<Component>) -> Seq<(u8, Seq<char>)> {
    v.map_values(|c: Component| (c.kind, c.name@))
}

/// Whether the characters are exactly `.`.
fn is_dot(piece: &Vec<char>) -> (r: bool)
    ensures
        r == (piece@ == seq!['.']),
{
    if piece.len() == 1 && piece[0] == '.' {
        assert(piece@ =~= seq!['.']);
        true
    } else {
        false
    }
}

/// Whether the characters are exactly `..`.
fn is_dot_dot(piece: &Vec<char>) -> (r: bool)
    ensures
        r == (piece@ == seq!['.', '.']),
{
    if piece.len() == 2 && piece[0] == '.' && piece[1] == '.' {
        assert(piece@ =~= seq!['.', '.']);
        true
    } else {
        false
    }
}

/// The components of a path.
fn components_of(path: &Vec<char>) -> (r: Vec<Component>)
    ensures
        components_view(r@) == path_components(path@),
{
    let pieces = split_chars(path, '/');
    proof {
        lemma_split_on_nonempty(path@, '/');
    }
    let ghost pv = pieces_view(pieces@);
    let mut out: Vec<Component> = Vec::new();
    if path.len() > 0 && path[0] == '/' {
        out.push(Component { kind: ROOT_DIR, name: Vec::new() });
    } else if is_dot(&pieces[0]) {
        out.push(Component { kind: CUR_DIR, name: Vec::new() });
    }
    let ghost head = components_view(out@);
    assert(pv[0] == pieces@[0]@);
    let mut j: usize = 0;
    assert(pv.take(0) =~= Seq::<Seq<char>>::empty());
    assert(head + body_components(pv.take(0)) =~= head);
    while j < pieces.len()
        invariant
            j <= pieces@.len(),
            pv == pieces_view(pieces@),
            pv == split_on(path@, '/'),
            components_view(out@) == head + body_components(pv.take(j as int)),
        decreases pieces@.len() - j,
    {
        let piece = &pieces[j];
        let ghost before = components_view(out@);
        assert(pv.take(j + 1).drop_last() =~= pv.take(j as int));
        assert(pv.take(j + 1).last() == piece@);
        if piece.len() == 0 || is_dot(piece) {
            assert(piece_components(piece@) =~= Seq::<(u8, Seq<char>)>::empty());
        } else if is_dot_dot(piece) {
            out.push(Component { kind: PARENT_DIR, name: Vec::new() });
            assert(components_view(out@) =~= before.push((PARENT_DIR, Seq::empty())));
        } else {
            let name = piece.clone();
            assert(name@ =~= piece@);
            out.push(Component { kind: NORMAL, name });
            assert(components_view(out@) =~= before.push((NORMAL, piece@)));
        }
        assert(head + body_components(pv.take(j + 1)) =~= before + piece_components(piece@));
        j = j + 1;
    }
    assert(pv.take(pv.len() as int) =~= pv);
    out
}

/// Compares two components by `component_order`.
fn compare_components(x: &Component, y: &Component) -> (r: i8)
    ensures
        r as int == component_order((x.kind, x.name@), (y.kind, y.name@)),
{
    if x.kind < y.kind {
        -1
    } else if x.kind > y.kind {
        1
    } else {
        compare_text(&x.name, &y.name)
    }
}

/// Compares two paths as std orders them: -1 when `a` comes first, 0 when
/// they are the same path, 1 when `b` comes first.
pub fn compare_paths(a: &str, b: &str) -> (r: i8)
    ensures
        r as int == path_order(a@, b@),
{
    let ca = components_of(&crate::text::chars_of(a));
    let cb = components_of(&crate::text::chars_of(b));
    let ghost f = |x: (u8, Seq<char>), y: (u8, Seq<char>)| component_order(x, y);
    let ghost va = components_view(ca@);
    let ghost vb = components_view(cb@);
    let mut i: usize = 0;
    assert(va.skip(0) =~= va);
    assert(vb.skip(0) =~= vb);
    loop
        invariant
            f == (|x: (u8, Seq<char>), y: (u8, Seq<char>)| component_order(x, y)),
            va == components_view(ca@),
            vb == components_view(cb@),
            va == path_components(a@),
            vb == path_components(b@),
            i <= va.len(),
            i <= vb.len(),
            path_order(a@, b@) == lex_order(va.skip(i as int), vb.skip(i as int), f),
        decreases va.len() - i,
    {
        let ghost sa = va.skip(i as int);
        let ghost sb = vb.skip(i as int);
        if i == ca.len() {
            return if i == cb.len() { 0 } else { -1 };
        }
        if i == cb.len() {
            return 1;
        }
        let o = compare_components(&ca[i], &cb[i]);
        assert(sa[0] == va[i as int] && sb[0] == vb[i as int]);
        assert(sa.len() > 0 && sb.len() > 0);
        assert(o as int == f(sa[0], sb[0]));
        if o != 0 {
            return o;
        }
        assert(sa.drop_first() =~= va.skip(i + 1));
        assert(sb.drop_first() =~= vb.skip(i + 1));
        i = i + 1;
    }
}

/// Whether path `a` comes no later than path `b`.
pub fn path_le_exec(a: &str, b: &str) -> (r: bool)
    ensures
        r == path_le(a@, b@),
{
    compare_paths(a, b) <= 0
}

/// Whether two texts name the same path.
pub fn is_same_path(a: &str, b: &str) -> (r: bool)
    ensures
        r == same_path(a@, b@),
{
    proof {
        lemma_path_order(a@, b@, b@);
    }
    compare_paths(a, b) == 0
}

/// The name of the last component of a path: the characters after its last
/// separator.
pub open spec fn file_name(path: Seq<char>) -> Seq<char>
    decreases path.len(),
{
    if path.len() == 0 {
        path
    } else if path.last() == '/' {
        Seq::empty()
    } else {
        file_name(path.drop_last()).push(path.last())
    }
}

/// The file name of a path is the text after its last separator: for a
/// directory `d` and a name `n` without separator, the file name of `d/n`
/// is `n`, and so is that of `n` alone.
pub proof fn lemma_file_name_is_last_piece(d: Seq<char>, n: Seq<char>)
    requires
        !n.contains('/'),
    ensures
        file_name(d.push('/') + n) == n,
        file_name(n) == n,
        is_sol_path(d.push('/') + n) <==> (n.len() > 4 && n.subrange(n.len() - 4, n.len() as int) == seq!['.', 's', 'o', 'l']),
    decreases n.len(),
{
    if n.len() == 0 {
        assert(d.push('/') + n =~= d.push('/'));
        assert(file_name(n) =~= n);
    } else {
        let m = n.drop_last();
        assert(!m.contains('/')) by {
            if m.contains('/') {
                let i = choose|i: int| 0 <= i < m.len() && m[i] == '/';
                assert(n[i] == '/');
            }
        }
        lemma_file_name_is_last_piece(d, m);
        assert(n.last() != '/') by {
            assert(n[n.len() - 1] == n.last());
        }
        assert((d.push('/') + n).drop_last() =~= d.push('/') + m);
        assert((d.push('/') + n).last() == n.last());
        assert(m.push(n.last()) =~= n);
    }
}

/// Whether a path names a Solidity source: its file name has the extension
/// `sol`, after a non-empty stem.
pub open spec fn is_sol_path(path: Seq<char>) -> bool {
    let name = file_name(path);
    &&& name.len() > 4
    &&& name.subrange(name.len() - 4, name.len() as int) == seq!['.', 's', 'o', 'l']
}

/// Whether `path` names a Solidity source file (extension `.sol`).
#[verifier::spinoff_prover]
#[verifier::rlimit(30)]
pub fn is_sol_file(path: &str) -> (r: bool)
    ensures
        r == is_sol_path(path@),
{
    let chars = crate::text::chars_of(path);
    let n = chars.len();
    let mut start: usize = n;
    assert(chars@.subrange(0, n as int) =~= chars@);
    assert(file_name(chars@) =~= file_name(chars@.subrange(0, n as int)) + chars@.subrange(n as int, n as int));
    // find the start of the file name
    while start > 0 && chars[start - 1] != '/'
        invariant
            start <= n,
            n == chars@.len(),
            file_name(chars@) == file_name(chars@.subrange(0, start as int)) + chars@.subrange(start as int, n as int),
        decreases start,
    {
        let ghost pre = chars@.subrange(0, start as int);
        assert(pre.drop_last() =~= chars@.subrange(0, start - 1));
        assert(chars@.subrange(start - 1, n as int) =~= seq![pre.last()] + chars@.subrange(start as int, n as int));
        start = start - 1;
    }
    proof {
        let pre = chars@.subrange(0, start as int);
        if start > 0 {
            assert(pre.last() == '/');
        }
        assert(file_name(pre) =~= Seq::<char>::empty());
        assert(file_name(chars@) =~= chars@.subrange(start as int, n as int));
        assert(chars@ == path@);
    }
    let len = n - start;
    if len <= 4 {
        return false;
    }
    let r = chars[n - 4] == '.' && chars[n - 3] == 's' && chars[n - 2] == 'o' && chars[n - 1] == 'l';
    proof {
        let name = chars@.subrange(start as int, n as int);
        let tail = name.subrange(name.len() - 4, name.len() as int);
        assert(tail[0] == chars@[n - 4]);
        assert(tail[1] == chars@[n - 3]);
        assert(tail[2] == chars@[n - 2]);
        assert(tail[3] == chars@[n - 1]);
        if r {
            assert(tail =~= seq!['.', 's', 'o', 'l']);
        }
    }
    r
}

/// What `std::path::Path::strip_prefix` returns, read as text: the path that,
/// joined onto `base`, gives `path`; `None` when `base` is not a prefix of
/// `path` component by component.
pub uninterp spec fn path_strip_prefix(path: Seq<char>, base: Seq<char>) -> Option<Seq<char>>;

/// Calls `std::path::Path::strip_prefix` and renders the result as text. The
/// contract names the result (`path_strip_prefix`) and states nothing more of
/// it: its behaviour on separators and `.` components is left to std.
#[verifier::external_body]
pub fn strip_path_prefix(path: &str, base: &str) -> (r: Option<String>)
    ensures
        match r {
            Some(s) => path_strip_prefix(path@, base@) == Some(s@),
            None => path_strip_prefix(path@, base@) is None,
        },
{
    std::path::Path::new(path).strip_prefix(base).ok().map(|p| p.to_string_lossy().into_owned())
}

/// The path relative to `base` when `base` is a prefix of it, else the path
/// itself.
pub open spec fn relative_or_self(path: Seq<char>, base: Seq<char>) -> Seq<char> {
    match path_strip_prefix(path, base) {
        Some(rel) => rel,
        None => path,
    }
}

/// `path` relative to `base` when `base` is a prefix of it, else `path`.
pub fn relative_to(path: &str, base: &str) -> (r: String)
    ensures
        r@ == relative_or_self(path@, base@),
{
    match strip_path_prefix(path, base) {
        Some(rel) => rel,
        None => path.to_owned(),
    }
}

/// What `std::path::Path::join` returns, read as text.
pub uninterp spec fn path_joined(base: Seq<char>, rel: Seq<char>) -> Seq<char>;

/// Calls `std::path::Path::join` and renders the result as text. The contract
/// names the result (`path_joined`); where a separator is put is left to std.
#[verifier::external_body]
pub fn join_path(base: &str, rel: &str) -> (r: String)
    ensures
        r@ == path_joined(base@, rel@),
{
    std::path::Path::new(base).join(rel).to_string_lossy().into_owned()
}

} // verus!
