use vstd::prelude::*;
use crate::order::{int_order, text_order, compare_text, lex_order, is_comparator, lemma_text_order, lemma_lex_range, lemma_lex_antisym, lemma_lex_zero, lemma_lex_transitive};
use crate::text::{split_on, split_chars, pieces_view, chars_of, lemma_split_on_injective};

verus! {

/// A compiler version as semver writes it: release numbers, then the
/// pre-release text (after `-`) and the build metadata (after `+`), each
/// empty when absent.
#[derive(Clone, Debug)]
pub struct CompilerVersion {
    pub major: u64,
    pub minor: u64,
    pub patch: u64,
    pub pre: String,
    pub build: String,
}

impl View for CompilerVersion {
    type V = (u64, u64, u64, Seq<char>, Seq<char>);

    open spec fn view(&self) -> (u64, u64, u64, Seq<char>, Seq<char>) {
        (self.major, self.minor, self.patch, self.pre@, self.build@)
    }
}

impl CompilerVersion {
    /// A copy of the version.
    pub fn duplicate(&self) -> (r: CompilerVersion)
        ensures
            r@ == self@,
    {
        CompilerVersion {
            major: self.major,
            minor: self.minor,
            patch: self.patch,
            pre: self.pre.clone(),
            build: self.build.clone(),
        }
    }
}

/// Whether every character is an ASCII digit (so, also, of the empty text).
pub open spec fn all_digits(s: Seq<char>) -> bool {
    forall|i: int| 0 <= i < s.len() ==> '0' <= #[trigger] s[i] && s[i] <= '9'
}

/// The text without its leading `0`s.
pub open spec fn trim_zeros(s: Seq<char>) -> Seq<char>
    decreases s.len(),
{
    if s.len() > 0 && s[0] == '0' {
        trim_zeros(s.drop_first())
    } else {
        s
    }
}

/// The order of two dot-separated identifiers of a pre-release (`build` is
/// false) or of build metadata (`build` is true). Numeric identifiers (all
/// digits) come before the others, which compare as text. Numeric
/// pre-release identifiers compare by length, then as text; numeric build
/// identifiers compare by the length of their digits after leading zeros,
/// then by those digits as text, then by their whole length.
pub open spec fn ident_order(x: Seq<char>, y: Seq<char>, build: bool) -> int {
    let (dx, dy) = (all_digits(x), all_digits(y));
    if dx && dy {
        if build {
            let (tx, ty) = (trim_zeros(x), trim_zeros(y));
            if tx.len() != ty.len() {
                int_order(tx.len() as int, ty.len() as int)
            } else if tx != ty {
                text_order(tx, ty)
            } else {
                int_order(x.len() as int, y.len() as int)
            }
        } else if x.len() != y.len() {
            int_order(x.len() as int, y.len() as int)
        } else {
            text_order(x, y)
        }
    } else if dx {
        -1
    } else if dy {
        1
    } else {
        text_order(x, y)
    }
}

/// The order of two dot-separated identifier lists: identifier by
/// identifier, a list coming before every list that extends it.
pub open spec fn ident_list_order(a: Seq<char>, b: Seq<char>, build: bool) -> int {
    lex_order(split_on(a, '.'), split_on(b, '.'), |x: Seq<char>, y: Seq<char>| ident_order(x, y, build))
}

/// The order of pre-release texts: a release (empty text) comes after
/// every pre-release; pre-releases compare as identifier lists.
pub open spec fn prerelease_order(a: Seq<char>, b: Seq<char>) -> int {
    if a.len() == 0 && b.len() == 0 {
        0
    } else if a.len() == 0 {
        1
    } else if b.len() == 0 {
        -1
    } else {
        ident_list_order(a, b, false)
    }
}

/// The order of versions, as semver orders `Version`: by major, minor and
/// patch number, then by pre-release, then by build metadata.
pub open spec fn version_order(a: (u64, u64, u64, Seq<char>, Seq<char>), b: (u64, u64, u64, Seq<char>, Seq<char>)) -> int {
    if a.0 != b.0 {
        int_order(a.0 as int, b.0 as int)
    } else if a.1 != b.1 {
        int_order(a.1 as int, b.1 as int)
    } else if a.2 != b.2 {
        int_order(a.2 as int, b.2 as int)
    } else if prerelease_order(a.3, b.3) != 0 {
        prerelease_order(a.3, b.3)
    } else {
        ident_list_order(a.4, b.4, true)
    }
}

/// A text of digits is its leading zeros followed by what trimming leaves.
proof fn lemma_trim_zeros(s: Seq<char>)
    ensures
        trim_zeros(s).len() <= s.len(),
        s == Seq::new((s.len() - trim_zeros(s).len()) as nat, |i: int| '0') + trim_zeros(s),
    decreases s.len(),
{
    if s.len() > 0 && s[0] == '0' {
        let r = s.drop_first();
        lemma_trim_zeros(r);
        let k = (r.len() - trim_zeros(r).len()) as nat;
        assert(s =~= seq!['0'] + r);
        assert(seq!['0'] + Seq::new(k, |i: int| '0') =~= Seq::new(k + 1, |i: int| '0'));
        assert(s =~= Seq::new(k + 1, |i: int| '0') + trim_zeros(r));
    } else {
        assert(s =~= Seq::new(0, |i: int| '0') + s);
    }
}

/// The comparator laws of the identifier order, stated for given identifiers.
pub proof fn lemma_ident_order(x: Seq<char>, y: Seq<char>, z: Seq<char>, build: bool)
    ensures
        -1 <= ident_order(x, y, build) <= 1,
        ident_order(x, y, build) == -ident_order(y, x, build),
        ident_order(x, y, build) == 0 <==> x == y,
        ident_order(x, y, build) < 0 && ident_order(y, z, build) < 0 ==> ident_order(x, z, build) < 0,
{
    lemma_text_order(x, y, z);
    lemma_text_order(x, z, z);
    lemma_text_order(y, z, z);
    let (tx, ty, tz) = (trim_zeros(x), trim_zeros(y), trim_zeros(z));
    lemma_text_order(tx, ty, tz);
    lemma_text_order(tx, tz, tz);
    lemma_text_order(ty, tz, tz);
    lemma_trim_zeros(x);
    lemma_trim_zeros(y);
}

/// The identifier order is a comparator.
pub proof fn lemma_ident_comparator(build: bool)
    ensures
        is_comparator(|x: Seq<char>, y: Seq<char>| ident_order(x, y, build)),
{
    let f = |x: Seq<char>, y: Seq<char>| ident_order(x, y, build);
    assert forall|x: Seq<char>, y: Seq<char>| -1 <= #[trigger] f(x, y) <= 1 by {
        lemma_ident_order(x, y, y, build);
    }
    assert forall|x: Seq<char>, y: Seq<char>| #[trigger] f(x, y) == -f(y, x) by {
        lemma_ident_order(x, y, y, build);
    }
    assert forall|x: Seq<char>, y: Seq<char>| #[trigger] f(x, y) == 0 <==> x == y by {
        lemma_ident_order(x, y, y, build);
    }
    assert forall|x: Seq<char>, y: Seq<char>, z: Seq<char>|
        #[trigger] f(x, y) < 0 && #[trigger] f(y, z) < 0 implies f(x, z) < 0 by {
        lemma_ident_order(x, y, z, build);
    }
}

/// The comparator laws of the identifier list order; lists compare equal
/// exactly when they are the same text.
pub proof fn lemma_ident_list_order(a: Seq<char>, b: Seq<char>, c: Seq<char>, build: bool)
    ensures
        -1 <= ident_list_order(a, b, build) <= 1,
        ident_list_order(a, b, build) == -ident_list_order(b, a, build),
        ident_list_order(a, b, build) == 0 <==> a == b,
        ident_list_order(a, b, build) < 0 && ident_list_order(b, c, build) < 0 ==> ident_list_order(a, c, build) < 0,
{
    lemma_ident_comparator(build);
    let f = |x: Seq<char>, y: Seq<char>| ident_order(x, y, build);
    let (sa, sb, sc) = (split_on(a, '.'), split_on(b, '.'), split_on(c, '.'));
    lemma_lex_range(sa, sb, f);
    lemma_lex_antisym(sa, sb, f);
    lemma_lex_zero(sa, sb, f);
    if sa == sb {
        lemma_split_on_injective(a, b, '.');
    }
    if ident_list_order(a, b, build) < 0 && ident_list_order(b, c, build) < 0 {
        lemma_lex_transitive(sa, sb, sc, f);
    }
}

/// The comparator laws of the version order, stated for given versions:
/// answers are -1, 0 or 1, swapping the versions negates the answer,
/// versions compare equal exactly when they are the same version, and
/// "earlier than" is transitive.
pub proof fn lemma_version_order(
    a: (u64, u64, u64, Seq<char>, Seq<char>),
    b: (u64, u64, u64, Seq<char>, Seq<char>),
    c: (u64, u64, u64, Seq<char>, Seq<char>),
)
    ensures
        -1 <= version_order(a, b) <= 1,
        version_order(a, b) == -version_order(b, a),
        version_order(a, b) == 0 <==> a == b,
        version_order(a, b) < 0 && version_order(b, c) < 0 ==> version_order(a, c) < 0,
{
    lemma_ident_list_order(a.3, b.3, c.3, false);
    lemma_ident_list_order(a.3, c.3, c.3, false);
    lemma_ident_list_order(b.3, c.3, c.3, false);
    lemma_ident_list_order(a.4, b.4, c.4, true);
    lemma_ident_list_order(a.4, c.4, c.4, true);
    lemma_ident_list_order(b.4, c.4, c.4, true);
}

/// The release numbers decide first: a version with a smaller major number,
/// or an equal major and smaller minor, or equal major and minor and a
/// smaller patch, is earlier, whatever its pre-release and build metadata.
pub proof fn lemma_release_numbers_decide(
    a: (u64, u64, u64, Seq<char>, Seq<char>),
    b: (u64, u64, u64, Seq<char>, Seq<char>),
)
    requires
        a.0 < b.0 || (a.0 == b.0 && a.1 < b.1) || (a.0 == b.0 && a.1 == b.1 && a.2 < b.2),
    ensures
        version_order(a, b) == -1,
{
}

/// A pre-release is earlier than the release with the same numbers, whatever
/// the build metadata of either.
pub proof fn lemma_prerelease_before_release(
    a: (u64, u64, u64, Seq<char>, Seq<char>),
    b: (u64, u64, u64, Seq<char>, Seq<char>),
)
    requires
        a.0 == b.0 && a.1 == b.1 && a.2 == b.2,
        a.3.len() > 0,
        b.3.len() == 0,
    ensures
        version_order(a, b) == -1,
{
}

/// An identifier made only of ASCII digits comes before one that holds some
/// other character, in a pre-release and in build metadata alike.
pub proof fn lemma_numeric_identifier_first(x: Seq<char>, y: Seq<char>, build: bool)
    requires
        forall|i: int| 0 <= i < x.len() ==> '0' <= #[trigger] x[i] && x[i] <= '9',
        exists|j: int| 0 <= j < y.len() && !('0' <= #[trigger] y[j] && y[j] <= '9'),
    ensures
        ident_order(x, y, build) == -1,
{
}

/// Numeric pre-release identifiers compare by value: of two digit strings
/// without leading zeros, the shorter is the smaller, and of two of the same
/// length, the one with the smaller first differing digit.
pub proof fn lemma_numeric_prerelease_by_value(x: Seq<char>, y: Seq<char>, k: int)
    requires
        forall|i: int| 0 <= i < x.len() ==> '0' <= #[trigger] x[i] && x[i] <= '9',
        forall|i: int| 0 <= i < y.len() ==> '0' <= #[trigger] y[i] && y[i] <= '9',
        x.len() < y.len() || (x.len() == y.len() && 0 <= k < x.len() && x.subrange(0, k) == y.subrange(0, k) && x[k] < y[k]),
    ensures
        ident_order(x, y, false) == -1,
{
    if x.len() == y.len() {
        lemma_text_prefix_then_less(x, y, k);
    }
}

/// Texts that agree up to position `k` and differ there are ordered by their
/// characters at `k`.
proof fn lemma_text_prefix_then_less(x: Seq<char>, y: Seq<char>, k: int)
    requires
        0 <= k < x.len(),
        k < y.len(),
        x.subrange(0, k) == y.subrange(0, k),
        x[k] < y[k],
    ensures
        text_order(x, y) == -1,
    decreases k,
{
    if k == 0 {
    } else {
        assert(x[0] == x.subrange(0, k)[0]);
        assert(y[0] == y.subrange(0, k)[0]);
        assert(x.drop_first().subrange(0, k - 1) =~= x.subrange(0, k).drop_first());
        assert(y.drop_first().subrange(0, k - 1) =~= y.subrange(0, k).drop_first());
        lemma_text_prefix_then_less(x.drop_first(), y.drop_first(), k - 1);
    }
}

/// Versions are totally ordered: the order is antisymmetric, compares
/// equal only the same version, and is transitive.
pub proof fn lemma_version_order_laws()
    ensures
        forall|a: (u64, u64, u64, Seq<char>, Seq<char>), b: (u64, u64, u64, Seq<char>, Seq<char>)|
            #[trigger] version_order(a, b) == -version_order(b, a),
        forall|a: (u64, u64, u64, Seq<char>, Seq<char>), b: (u64, u64, u64, Seq<char>, Seq<char>)|
            #[trigger] version_order(a, b) == 0 <==> a == b,
        forall|a: (u64, u64, u64, Seq<char>, Seq<char>), b: (u64, u64, u64, Seq<char>, Seq<char>), c: (u64, u64, u64, Seq<char>, Seq<char>)|
            #[trigger] version_order(a, b) < 0 && #[trigger] version_order(b, c) < 0 ==> version_order(a, c) < 0,
{
    assert forall|a: (u64, u64, u64, Seq<char>, Seq<char>), b: (u64, u64, u64, Seq<char>, Seq<char>)|
        #[trigger] version_order(a, b) == -version_order(b, a) by {
        lemma_version_order(a, b, b);
    }
    assert forall|a: (u64, u64, u64, Seq<char>, Seq<char>), b: (u64, u64, u64, Seq<char>, Seq<char>)|
        #[trigger] version_order(a, b) == 0 <==> a == b by {
        lemma_version_order(a, b, b);
    }
    assert forall|a: (u64, u64, u64, Seq<char>, Seq<char>), b: (u64, u64, u64, Seq<char>, Seq<char>), c: (u64, u64, u64, Seq<char>, Seq<char>)|
        #[trigger] version_order(a, b) < 0 && #[trigger] version_order(b, c) < 0 implies version_order(a, c) < 0 by {
        lemma_version_order(a, b, c);
    }
}

/// Whether every character is an ASCII digit.
fn is_all_digits(v: &Vec<char>) -> (r: bool)
    ensures
        r == all_digits(v@),
{
    let mut i: usize = 0;
    while i < v.len()
        invariant
            i <= v@.len(),
            forall|k: int| 0 <= k < i ==> '0' <= #[trigger] v@[k] && v@[k] <= '9',
        decreases v@.len() - i,
    {
        let c = v[i];
        if !('0' <= c && c <= '9') {
            return false;
        }
        i = i + 1;
    }
    true
}

/// The characters without their leading `0`s.
fn without_leading_zeros(v: &Vec<char>) -> (r: Vec<char>)
    ensures
        r@ == trim_zeros(v@),
{
    let mut k: usize = 0;
    assert(v@.skip(0) =~= v@);
    while k < v.len() && v[k] == '0'
        invariant
            k <= v@.len(),
            trim_zeros(v@) == trim_zeros(v@.skip(k as int)),
        decreases v@.len() - k,
    {
        assert(v@.skip(k as int).drop_first() =~= v@.skip(k + 1));
        k = k + 1;
    }
    let mut out: Vec<char> = Vec::new();
    let mut i: usize = k;
    while i < v.len()
        invariant
            k <= i <= v@.len(),
            out@ == v@.subrange(k as int, i as int),
        decreases v@.len() - i,
    {
        out.push(v[i]);
        assert(out@ =~= v@.subrange(k as int, i + 1));
        i = i + 1;
    }
    assert(out@ =~= v@.skip(k as int));
    out
}

/// Compares two identifiers by `ident_order`.
fn compare_idents(x: &Vec<char>, y: &Vec<char>, build: bool) -> (r: i8)
    ensures
        r as int == ident_order(x@, y@, build),
{
    let dx = is_all_digits(x);
    let dy = is_all_digits(y);
    if dx && dy {
        if build {
            let tx = without_leading_zeros(x);
            let ty = without_leading_zeros(y);
            if tx.len() < ty.len() {
                -1
            } else if tx.len() > ty.len() {
                1
            } else {
                let o = compare_text(&tx, &ty);
                proof {
                    lemma_text_order(tx@, ty@, ty@);
                }
                if o != 0 {
                    o
                } else if x.len() < y.len() {
                    -1
                } else if x.len() > y.len() {
                    1
                } else {
                    0
                }
            }
        } else if x.len() < y.len() {
            -1
        } else if x.len() > y.len() {
            1
        } else {
            compare_text(x, y)
        }
    } else if dx {
        -1
    } else if dy {
        1
    } else {
        compare_text(x, y)
    }
}

/// Compares two dot-separated identifier lists by `ident_list_order`.
fn compare_ident_lists(a: &Vec<char>, b: &Vec<char>, build: bool) -> (r: i8)
    ensures
        r as int == ident_list_order(a@, b@, build),
{
    let pa = split_chars(a, '.');
    let pb = split_chars(b, '.');
    let ghost f = |x: Seq<char>, y: Seq<char>| ident_order(x, y, build);
    let ghost va = pieces_view(pa@);
    let ghost vb = pieces_view(pb@);
    let mut i: usize = 0;
    assert(va.skip(0) =~= va);
    assert(vb.skip(0) =~= vb);
    loop
        invariant
            f == (|x: Seq<char>, y: Seq<char>| ident_order(x, y, build)),
            va == pieces_view(pa@),
            vb == pieces_view(pb@),
            va == split_on(a@, '.'),
            vb == split_on(b@, '.'),
            i <= va.len(),
            i <= vb.len(),
            ident_list_order(a@, b@, build) == lex_order(va.skip(i as int), vb.skip(i as int), f),
        decreases va.len() - i,
    {
        let ghost sa = va.skip(i as int);
        let ghost sb = vb.skip(i as int);
        if i == pa.len() {
            return if i == pb.len() { 0 } else { -1 };
        }
        if i == pb.len() {
            return 1;
        }
        let o = compare_idents(&pa[i], &pb[i], build);
        assert(sa[0] == va[i as int] && sb[0] == vb[i as int]);
        assert(sa.len() > 0 && sb.len() > 0);
        assert(o as int == f(sa[0], sb[0]));
        if o != 0 {
            return o;
        }
        assert(sa.drop_first() =~= va.skip(i + 1));
        assert(sb.drop_first() =~= vb.skip(i + 1));
        i = i + 1;
    }
}

/// Compares two versions as semver orders them: -1 when `a` is the
/// earlier, 0 when they are the same version, 1 when `b` is the earlier.
pub fn compare_versions(a: &CompilerVersion, b: &CompilerVersion) -> (r: i8)
    ensures
        r as int == version_order(a@, b@),
{
    if a.major != b.major {
        return if a.major < b.major { -1 } else { 1 };
    }
    if a.minor != b.minor {
        return if a.minor < b.minor { -1 } else { 1 };
    }
    if a.patch != b.patch {
        return if a.patch < b.patch { -1 } else { 1 };
    }
    let pre_a = chars_of(a.pre.as_str());
    let pre_b = chars_of(b.pre.as_str());
    let pre = if pre_a.len() == 0 && pre_b.len() == 0 {
        0
    } else if pre_a.len() == 0 {
        1
    } else if pre_b.len() == 0 {
        -1
    } else {
        compare_ident_lists(&pre_a, &pre_b, false)
    };
    if pre != 0 {
        return pre;
    }
    compare_ident_lists(&chars_of(a.build.as_str()), &chars_of(b.build.as_str()), true)
}

} // verus!
