use vstd::prelude::*;
use vstd::seq_lib::to_multiset_insert;
use crate::paths::{path_le, path_le_exec, strip_path_prefix, path_strip_prefix, lemma_path_le_total, lemma_path_le_transitive};

verus! {

/// The glob crate's error for a pattern that does not compile, carried as is.
#[verifier::external_type_specification]
#[verifier::external_body]
pub struct ExPatternError(glob::PatternError);

/// A Solidity source file: its path and its text.
pub struct SourceFile {
    pub path: String,
    pub content: String,
}

impl SourceFile {
    /// The file as plain values: (path, text).
    pub open spec fn view_pair(self) -> (Seq<char>, Seq<char>) {
        (self.path@, self.content@)
    }

    /// A copy of the file.
    pub fn duplicate(&self) -> (r: SourceFile)
        ensures
            r.view_pair() == self.view_pair(),
    {
        SourceFile { path: self.path.clone(), content: self.content.clone() }
    }
}

/// The files of a sequence as plain values.
pub open spec fn files_view(files: Seq<SourceFile>) -> Seq<(Seq<char>, Seq<char>)> {
    files.map_values(|f: SourceFile| f.view_pair())
}

/// The header printed above a displayed source.
pub fn display_header(relative: &str) -> (r: String)
    ensures
        r@ == "=== "@ + relative@ + " ==="@,
{
    let mut h = "=== ".to_owned();
    h.append(relative);
    h.append(" ===");
    h
}

/// Whether `Pattern::new` of the glob crate accepts the pattern text.
pub uninterp spec fn glob_compiles(pattern: Seq<char>) -> bool;

/// Whether the glob pattern matches the path, as
/// `Pattern::matches_path_with` decides with the options
/// `require_literal_separator: true` and the defaults of `MatchOptions`
/// otherwise (case-insensitive, a leading dot matched by wildcards).
pub uninterp spec fn glob_matches(pattern: Seq<char>, path: Seq<char>) -> bool;

/// Calls `glob::Pattern::new`: succeeds exactly when the pattern text
/// compiles (`glob_compiles`), else returns the crate's error.
#[verifier::external_body]
fn check_glob(pattern: &str) -> (r: Result<(), glob::PatternError>)
    ensures
        r is Ok <==> glob_compiles(pattern@),
{
    glob::Pattern::new(pattern).map(|_| ())
}

/// Calls `glob::Pattern::matches_path_with` on the pattern compiled from
/// `pattern` (which `requires` says compiles), with literal separators
/// required; the answer is named `glob_matches`.
#[verifier::external_body]
fn glob_matches_path(pattern: &str, path: &str) -> (r: bool)
    requires
        glob_compiles(pattern@),
    ensures
        r == glob_matches(pattern@, path@),
{
    match glob::Pattern::new(pattern) {
        Ok(p) => p.matches_path_with(
            std::path::Path::new(path),
            glob::MatchOptions { require_literal_separator: true, ..Default::default() },
        ),
        Err(_) => false,
    }
}

/// The entry that a source contributes to the display: its path relative to
/// `root` with its text, when it lies under `root` and its relative path
/// matches the glob.
pub open spec fn selected_entry(file: (Seq<char>, Seq<char>), root: Seq<char>, glob: Seq<char>) -> Option<(Seq<char>, Seq<char>)> {
    match path_strip_prefix(file.0, root) {
        Some(rel) => if glob_matches(glob, rel) {
            Some((rel, file.1))
        } else {
            None
        },
        None => None,
    }
}

/// The entries that the sources contribute, in the sources' order.
pub open spec fn selected(files: Seq<(Seq<char>, Seq<char>)>, root: Seq<char>, glob: Seq<char>) -> Seq<(Seq<char>, Seq<char>)>
    decreases files.len(),
{
    if files.len() == 0 {
        Seq::empty()
    } else {
        let rest = selected(files.drop_last(), root, glob);
        match selected_entry(files.last(), root, glob) {
            Some(e) => rest.push(e),
            None => rest,
        }
    }
}

/// A source is selected exactly when it lies under `root` and the glob
/// matches its whole path relative to `root`: each such source gives the
/// entry (relative path, text), and every entry comes from such a source.
pub proof fn lemma_selected_sources(files: Seq<(Seq<char>, Seq<char>)>, root: Seq<char>, glob: Seq<char>)
    ensures
        forall|i: int| 0 <= i < files.len()
            && path_strip_prefix((#[trigger] files[i]).0, root) is Some
            && glob_matches(glob, path_strip_prefix(files[i].0, root)->0)
            ==> selected(files, root, glob).contains((path_strip_prefix(files[i].0, root)->0, files[i].1)),
        forall|e: (Seq<char>, Seq<char>)| #[trigger] selected(files, root, glob).contains(e) ==> exists|i: int| 0 <= i < files.len()
            && path_strip_prefix((#[trigger] files[i]).0, root) == Some(e.0)
            && glob_matches(glob, e.0)
            && e.1 == files[i].1,
    decreases files.len(),
{
    if files.len() > 0 {
        let init = files.drop_last();
        lemma_selected_sources(init, root, glob);
        let si = selected(init, root, glob);
        let s = selected(files, root, glob);
        assert forall|i: int| 0 <= i < files.len()
            && path_strip_prefix((#[trigger] files[i]).0, root) is Some
            && glob_matches(glob, path_strip_prefix(files[i].0, root)->0)
            implies s.contains((path_strip_prefix(files[i].0, root)->0, files[i].1)) by {
            let e = (path_strip_prefix(files[i].0, root)->0, files[i].1);
            if i < init.len() {
                assert(init[i] == files[i]);
                assert(si.contains(e));
                let m = choose|m: int| 0 <= m < si.len() && si[m] == e;
                assert(s[m] == si[m]);
            } else {
                assert(files[i] == files.last());
                assert(s[s.len() - 1] == e);
            }
        }
        assert forall|e: (Seq<char>, Seq<char>)| #[trigger] s.contains(e) implies exists|i: int| 0 <= i < files.len()
            && path_strip_prefix((#[trigger] files[i]).0, root) == Some(e.0)
            && glob_matches(glob, e.0)
            && e.1 == files[i].1 by {
            let m = choose|m: int| 0 <= m < s.len() && s[m] == e;
            if m < si.len() {
                assert(si[m] == e);
                assert(si.contains(e));
                let i = choose|i: int| 0 <= i < init.len()
                    && path_strip_prefix((#[trigger] init[i]).0, root) == Some(e.0)
                    && glob_matches(glob, e.0)
                    && e.1 == init[i].1;
                assert(files[i] == init[i]);
            } else {
                assert(files[files.len() - 1] == files.last());
            }
        }
    }
}

/// Whether the files are listed in path order.
pub open spec fn sorted_by_path(files: Seq<(Seq<char>, Seq<char>)>) -> bool {
    forall|i: int, j: int| 0 <= i < j < files.len() ==> path_le(#[trigger] files[i].0, #[trigger] files[j].0)
}

/// Inserts `file` into `out`, which is in path order, after every file whose
/// path comes no later than its own.
fn insert_by_path(out: &mut Vec<SourceFile>, file: SourceFile)
    requires
        sorted_by_path(files_view(old(out)@)),
    ensures
        sorted_by_path(files_view(final(out)@)),
        files_view(final(out)@).to_multiset() == files_view(old(out)@).to_multiset().insert(file.view_pair()),
{
    let mut k: usize = out.len();
    while k > 0
        invariant
            k <= out@.len(),
            sorted_by_path(files_view(out@)),
            forall|m: int| k <= m < out@.len() ==> !path_le(#[trigger] out@[m].path@, file.path@),
        ensures
            k == 0 || path_le(out@[k - 1].path@, file.path@),
        decreases k,
    {
        if path_le_exec(out[k - 1].path.as_str(), file.path.as_str()) {
            break;
        }
        k = k - 1;
    }
    let ghost before = out@;
    proof {
        assert forall|m: int| 0 <= m < k implies path_le(#[trigger] before[m].path@, file.path@) by {
            if m < k - 1 {
                assert(path_le(files_view(before)[m].0, files_view(before)[k - 1].0));
                lemma_path_le_transitive(before[m].path@, before[k - 1].path@, file.path@);
            }
        }
        assert forall|m: int| k <= m < before.len() implies path_le(file.path@, #[trigger] before[m].path@) by {
            lemma_path_le_total(file.path@, before[m].path@);
        }
    }
    let ghost pair = file.view_pair();
    out.insert(k, file);
    proof {
        assert(files_view(out@) =~= files_view(before).insert(k as int, pair));
        to_multiset_insert(files_view(before), k as int, pair);
        let v = files_view(out@);
        assert forall|i: int, j: int| 0 <= i < j < v.len() implies path_le(#[trigger] v[i].0, #[trigger] v[j].0) by {
            let w = files_view(before);
            if j < k {
                assert(v[i] == w[i] && v[j] == w[j]);
            } else if j == k {
                assert(v[i] == w[i]);
            } else if i == k {
                assert(v[j] == w[j - 1]);
            } else if i < k {
                assert(v[i] == w[i] && v[j] == w[j - 1]);
            } else {
                assert(v[i] == w[i - 1] && v[j] == w[j - 1]);
            }
        }
    }
}

/// Selects, among `sources`, the files under `root` whose path relative to
/// `root` matches the glob pattern, and lists them by relative path in path
/// order, each with its text. Fails with the glob crate's error when the
/// pattern does not compile.
pub fn select_sources(root: &str, glob: &str, sources: &Vec<SourceFile>) -> (r: Result<Vec<SourceFile>, glob::PatternError>)
    ensures
        match r {
            Err(_) => !glob_compiles(glob@),
            Ok(out) => {
                &&& glob_compiles(glob@)
                &&& sorted_by_path(files_view(out@))
                &&& files_view(out@).to_multiset() == selected(files_view(sources@), root@, glob@).to_multiset()
                &&& forall|i: int| 0 <= i < sources@.len()
                    && path_strip_prefix((#[trigger] sources@[i]).path@, root@) is Some
                    && glob_matches(glob@, path_strip_prefix(sources@[i].path@, root@)->0)
                    ==> files_view(out@).contains((path_strip_prefix(sources@[i].path@, root@)->0, sources@[i].content@))
                &&& forall|e: (Seq<char>, Seq<char>)| #[trigger] files_view(out@).contains(e) ==> exists|i: int| 0 <= i < sources@.len()
                    && path_strip_prefix((#[trigger] sources@[i]).path@, root@) == Some(e.0)
                    && glob_matches(glob@, e.0)
                    && e.1 == sources@[i].content@
            },
        },
{
    check_glob(glob)?;
    let mut matched: Vec<SourceFile> = Vec::new();
    let mut i: usize = 0;
    while i < sources.len()
        invariant
            i <= sources@.len(),
            glob_compiles(glob@),
            files_view(matched@) == selected(files_view(sources@.take(i as int)), root@, glob@),
        decreases sources@.len() - i,
    {
        let src = &sources[i];
        let ghost prefix = files_view(sources@.take(i + 1));
        assert(prefix.drop_last() =~= files_view(sources@.take(i as int)));
        assert(prefix.last() == src.view_pair());
        match strip_path_prefix(src.path.as_str(), root) {
            Some(rel) => {
                if glob_matches_path(glob, rel.as_str()) {
                    let ghost before = matched@;
                    matched.push(SourceFile { path: rel, content: src.content.clone() });
                    assert(files_view(matched@) =~= files_view(before).push(matched@.last().view_pair()));
                }
            },
            None => {},
        }
        i = i + 1;
    }
    assert(sources@.take(sources@.len() as int) =~= sources@);
    let mut out: Vec<SourceFile> = Vec::new();
    let mut k: usize = 0;
    assert(files_view(matched@.take(0)) =~= Seq::<(Seq<char>, Seq<char>)>::empty());
    assert(files_view(out@) =~= Seq::<(Seq<char>, Seq<char>)>::empty());
    while k < matched.len()
        invariant
            k <= matched@.len(),
            sorted_by_path(files_view(out@)),
            files_view(out@).to_multiset() == files_view(matched@.take(k as int)).to_multiset(),
        decreases matched@.len() - k,
    {
        let ghost prefix = files_view(matched@.take(k + 1));
        assert(prefix =~= files_view(matched@.take(k as int)).push(matched@[k as int].view_pair()));
        proof { vstd::seq_lib::to_multiset_build(files_view(matched@.take(k as int)), matched@[k as int].view_pair()); }
        insert_by_path(&mut out, matched[k].duplicate());
        k = k + 1;
    }
    assert(matched@.take(matched@.len() as int) =~= matched@);
    proof {
        let fv = files_view(sources@);
        let sel = selected(fv, root@, glob@);
        let ov = files_view(out@);
        lemma_selected_sources(fv, root@, glob@);
        sel.to_multiset_ensures();
        ov.to_multiset_ensures();
        assert(files_view(matched@) == sel);
        assert(ov.to_multiset() == sel.to_multiset());
        assert forall|i: int| 0 <= i < sources@.len()
            && path_strip_prefix((#[trigger] sources@[i]).path@, root@) is Some
            && glob_matches(glob@, path_strip_prefix(sources@[i].path@, root@)->0)
            implies ov.contains((path_strip_prefix(sources@[i].path@, root@)->0, sources@[i].content@)) by {
            assert(fv[i] == sources@[i].view_pair());
            let e = (path_strip_prefix(sources@[i].path@, root@)->0, sources@[i].content@);
            assert(sel.contains(e));
            assert(sel.to_multiset().count(e) > 0);
            assert(ov.to_multiset().count(e) > 0);
        }
        assert forall|e: (Seq<char>, Seq<char>)| #[trigger] ov.contains(e) implies exists|i: int| 0 <= i < sources@.len()
            && path_strip_prefix((#[trigger] sources@[i]).path@, root@) == Some(e.0)
            && glob_matches(glob@, e.0)
            && e.1 == sources@[i].content@ by {
            assert(ov.to_multiset().count(e) > 0);
            assert(sel.to_multiset().count(e) > 0);
            assert(sel.contains(e));
            let i = choose|i: int| 0 <= i < fv.len()
                && path_strip_prefix((#[trigger] fv[i]).0, root@) == Some(e.0)
                && glob_matches(glob@, e.0)
                && e.1 == fv[i].1;
            assert(fv[i] == sources@[i].view_pair());
        }
    }
    Ok(out)
}

} // verus!
