use vstd::prelude::*;
use crate::display::{SourceFile, files_view};
use crate::paths::{join_path, path_joined, same_path, is_same_path};
use crate::text::{join_strings, seq_join};

verus! {

/// A macro rule that was expected to fail expanded without error.
pub enum MacroSucceeded {
    ExpectedError,
}

impl MacroSucceeded {
    /// The error's message.
    pub fn message(&self) -> (r: String)
        ensures
            r@ == "expected macro to error but it succeeded"@,
    {
        "expected macro to error but it succeeded".to_owned()
    }
}

/// The message for an expected file without expanded counterpart.
pub fn missing_file_message(relative: &str) -> (r: String)
    ensures
        r@ == "missing file in expanded output: "@ + relative@,
{
    let mut m = "missing file in expanded output: ".to_owned();
    m.append(relative);
    m
}

/// The message for mismatching expansions: the mismatching relative paths,
/// where their expanded text was written, and where to copy it if correct.
pub fn mismatch_message(paths: &Vec<String>, written_to: &str, expected_dir: &str) -> (r: String)
    ensures
        r@ == "macro expansion mismatch in: "@ + seq_join(paths@.map_values(|s: String| s@), ", "@) + "\nActual output written to '"@
            + written_to@ + "' \u{2014} copy to '"@ + expected_dir@ + "' if correct."@,
{
    let mut m = "macro expansion mismatch in: ".to_owned();
    let joined = join_strings(paths, ", ");
    m.append(joined.as_str());
    m.append("\nActual output written to '");
    m.append(written_to);
    m.append("' \u{2014} copy to '");
    m.append(expected_dir);
    m.append("' if correct.");
    m
}

/// Turns the outcome of an expansion that is expected to fail around: its
/// error is the success, and a successful expansion is the failure.
pub fn test_macro_err<S, E>(expanded: Result<S, E>) -> (r: Result<E, MacroSucceeded>)
    ensures
        match expanded {
            Err(e) => r == Ok::<E, MacroSucceeded>(e),
            Ok(_) => r == Err::<E, MacroSucceeded>(MacroSucceeded::ExpectedError),
        },
{
    match expanded {
        Err(e) => Ok(e),
        Ok(_) => Err(MacroSucceeded::ExpectedError),
    }
}

/// The text of the first file at `path` (the same path, compared by
/// components as std compares `Path` values), if any.
pub open spec fn lookup(files: Seq<(Seq<char>, Seq<char>)>, path: Seq<char>) -> Option<Seq<char>>
    decreases files.len(),
{
    if files.len() == 0 {
        None
    } else if same_path(files[0].0, path) {
        Some(files[0].1)
    } else {
        lookup(files.drop_first(), path)
    }
}

/// The lookup gives the text of the first file that is the same path as
/// `path`, and nothing exactly when no file is.
pub proof fn lemma_lookup_first_same_path(files: Seq<(Seq<char>, Seq<char>)>, path: Seq<char>)
    ensures
        lookup(files, path) is None <==> forall|i: int| 0 <= i < files.len() ==> !same_path((#[trigger] files[i]).0, path),
        lookup(files, path) is Some ==> exists|i: int| 0 <= i < files.len()
            && same_path((#[trigger] files[i]).0, path)
            && files[i].1 == lookup(files, path)->0
            && forall|j: int| 0 <= j < i ==> !same_path((#[trigger] files[j]).0, path),
    decreases files.len(),
{
    if files.len() > 0 {
        let rest = files.drop_first();
        lemma_lookup_first_same_path(rest, path);
        if !same_path(files[0].0, path) {
            assert forall|i: int| 0 < i < files.len() implies files[i] == rest[i - 1] by {}
            if lookup(rest, path) is None {
                assert forall|i: int| 0 <= i < files.len() implies !same_path((#[trigger] files[i]).0, path) by {
                    if i > 0 {
                        assert(files[i] == rest[i - 1]);
                    }
                }
            } else {
                let i = choose|i: int| 0 <= i < rest.len()
                    && same_path((#[trigger] rest[i]).0, path)
                    && rest[i].1 == lookup(rest, path)->0
                    && forall|j: int| 0 <= j < i ==> !same_path((#[trigger] rest[j]).0, path);
                assert(files[i + 1] == rest[i]);
                assert forall|j: int| 0 <= j < i + 1 implies !same_path((#[trigger] files[j]).0, path) by {
                    if j > 0 {
                        assert(files[j] == rest[j - 1]);
                    }
                }
            }
        }
    }
}

/// Compares expected files (relative path, text) in order with the expanded
/// files (full path, text): the expanded counterpart of an expected file is
/// the one at the relative path joined onto `source_root`. The first expected
/// file without a counterpart is the error; otherwise the mismatches are the
/// expected files whose counterpart's text differs, each given with that text.
pub open spec fn comparison(
    expected: Seq<(Seq<char>, Seq<char>)>,
    actual: Seq<(Seq<char>, Seq<char>)>,
    source_root: Seq<char>,
) -> Result<Seq<(Seq<char>, Seq<char>)>, Seq<char>>
    decreases expected.len(),
{
    if expected.len() == 0 {
        Ok(Seq::empty())
    } else {
        match comparison(expected.drop_last(), actual, source_root) {
            Err(missing) => Err(missing),
            Ok(mismatches) => {
                let rel = expected.last().0;
                match lookup(actual, path_joined(source_root, rel)) {
                    None => Err(rel),
                    Some(text) => if text == expected.last().1 {
                        Ok(mismatches)
                    } else {
                        Ok(mismatches.push((rel, text)))
                    },
                }
            },
        }
    }
}

/// Once a prefix of the expected files has a file without counterpart, so
/// has the whole sequence, with the same file.
proof fn lemma_comparison_err_extends(
    expected: Seq<(Seq<char>, Seq<char>)>,
    actual: Seq<(Seq<char>, Seq<char>)>,
    source_root: Seq<char>,
    k: int,
    missing: Seq<char>,
)
    requires
        0 <= k <= expected.len(),
        comparison(expected.take(k), actual, source_root) == Err::<Seq<(Seq<char>, Seq<char>)>, Seq<char>>(missing),
    ensures
        comparison(expected, actual, source_root) == Err::<Seq<(Seq<char>, Seq<char>)>, Seq<char>>(missing),
    decreases expected.len() - k,
{
    if k == expected.len() {
        assert(expected.take(k) =~= expected);
    } else {
        assert(expected.take(k + 1).drop_last() =~= expected.take(k));
        lemma_comparison_err_extends(expected, actual, source_root, k + 1, missing);
    }
}

/// When every expected file has an expanded counterpart with the same text,
/// the comparison finds no mismatch.
pub proof fn lemma_faithful_expansion_has_no_mismatch(
    expected: Seq<(Seq<char>, Seq<char>)>,
    actual: Seq<(Seq<char>, Seq<char>)>,
    source_root: Seq<char>,
)
    requires
        forall|i: int| 0 <= i < expected.len() ==> lookup(actual, path_joined(source_root, (#[trigger] expected[i]).0)) == Some(expected[i].1),
    ensures
        comparison(expected, actual, source_root) == Ok::<Seq<(Seq<char>, Seq<char>)>, Seq<char>>(Seq::empty()),
    decreases expected.len(),
{
    if expected.len() > 0 {
        let init = expected.drop_last();
        assert forall|i: int| 0 <= i < init.len() implies lookup(actual, path_joined(source_root, (#[trigger] init[i]).0)) == Some(init[i].1) by {
            assert(init[i] == expected[i]);
        }
        lemma_faithful_expansion_has_no_mismatch(init, actual, source_root);
        assert(expected.last() == expected[expected.len() - 1]);
    }
}

/// Every expected file whose expanded counterpart exists with a text other
/// than the expected one is reported as a mismatch, with that text.
pub proof fn lemma_differences_are_mismatches(
    expected: Seq<(Seq<char>, Seq<char>)>,
    actual: Seq<(Seq<char>, Seq<char>)>,
    source_root: Seq<char>,
    mismatches: Seq<(Seq<char>, Seq<char>)>,
)
    requires
        comparison(expected, actual, source_root) == Ok::<Seq<(Seq<char>, Seq<char>)>, Seq<char>>(mismatches),
    ensures
        forall|i: int| 0 <= i < expected.len()
            && lookup(actual, path_joined(source_root, (#[trigger] expected[i]).0)) is Some
            && lookup(actual, path_joined(source_root, expected[i].0))->0 != expected[i].1
            ==> mismatches.contains((expected[i].0, lookup(actual, path_joined(source_root, expected[i].0))->0)),
    decreases expected.len(),
{
    if expected.len() > 0 {
        let init = expected.drop_last();
        match comparison(init, actual, source_root) {
            Err(_) => {},
            Ok(ms) => {
                lemma_differences_are_mismatches(init, actual, source_root, ms);
                assert forall|i: int| 0 <= i < expected.len()
                    && lookup(actual, path_joined(source_root, (#[trigger] expected[i]).0)) is Some
                    && lookup(actual, path_joined(source_root, expected[i].0))->0 != expected[i].1
                    implies mismatches.contains((expected[i].0, lookup(actual, path_joined(source_root, expected[i].0))->0)) by {
                    let t = lookup(actual, path_joined(source_root, expected[i].0))->0;
                    if i < init.len() {
                        assert(init[i] == expected[i]);
                        assert(ms.contains((init[i].0, t)));
                        let m = choose|m: int| 0 <= m < ms.len() && ms[m] == (init[i].0, t);
                        if mismatches != ms {
                            assert(mismatches[m] == ms[m]);
                        }
                    } else {
                        assert(expected[i] == expected.last());
                        assert(mismatches[mismatches.len() - 1] == (expected[i].0, t));
                    }
                }
            },
        }
    }
}

/// Every mismatch the comparison reports is an expected file whose expanded
/// counterpart exists and holds the reported text, which differs from the
/// expected one.
pub proof fn lemma_mismatches_are_differences(
    expected: Seq<(Seq<char>, Seq<char>)>,
    actual: Seq<(Seq<char>, Seq<char>)>,
    source_root: Seq<char>,
    mismatches: Seq<(Seq<char>, Seq<char>)>,
)
    requires
        comparison(expected, actual, source_root) == Ok::<Seq<(Seq<char>, Seq<char>)>, Seq<char>>(mismatches),
    ensures
        forall|m: int| 0 <= m < mismatches.len() ==> exists|i: int| 0 <= i < expected.len() && {
            &&& (#[trigger] expected[i]).0 == (#[trigger] mismatches[m]).0
            &&& lookup(actual, path_joined(source_root, expected[i].0)) == Some(mismatches[m].1)
            &&& mismatches[m].1 != expected[i].1
        },
    decreases expected.len(),
{
    if expected.len() > 0 {
        let init = expected.drop_last();
        let last = expected.last();
        match comparison(init, actual, source_root) {
            Err(_) => {},
            Ok(ms) => {
                lemma_mismatches_are_differences(init, actual, source_root, ms);
                assert forall|m: int| 0 <= m < mismatches.len() implies exists|i: int| 0 <= i < expected.len() && {
                    &&& (#[trigger] expected[i]).0 == (#[trigger] mismatches[m]).0
                    &&& lookup(actual, path_joined(source_root, expected[i].0)) == Some(mismatches[m].1)
                    &&& mismatches[m].1 != expected[i].1
                } by {
                    if m < ms.len() {
                        assert(mismatches[m] == ms[m]);
                        let i = choose|i: int| 0 <= i < init.len() && {
                            &&& (#[trigger] init[i]).0 == (#[trigger] ms[m]).0
                            &&& lookup(actual, path_joined(source_root, init[i].0)) == Some(ms[m].1)
                            &&& ms[m].1 != init[i].1
                        };
                        assert(expected[i] == init[i]);
                    } else {
                        assert(expected[expected.len() - 1] == last);
                    }
                }
            },
        }
    }
}

/// Looks up the text of the first file at `path`.
fn find_text<'a>(files: &'a Vec<SourceFile>, path: &String) -> (r: Option<&'a String>)
    ensures
        match r {
            Some(t) => lookup(files_view(files@), path@) == Some(t@),
            None => lookup(files_view(files@), path@) is None,
        },
{
    let ghost fs = files_view(files@);
    let mut i: usize = 0;
    assert(fs.skip(0) =~= fs);
    while i < files.len()
        invariant
            fs == files_view(files@),
            i <= files@.len(),
            lookup(fs, path@) == lookup(fs.skip(i as int), path@),
        decreases files@.len() - i,
    {
        assert(fs.skip(i as int)[0] == files@[i as int].view_pair());
        if is_same_path(files[i].path.as_str(), path.as_str()) {
            return Some(&files[i].content);
        }
        assert(fs.skip(i as int).drop_first() =~= fs.skip(i + 1));
        i = i + 1;
    }
    None
}

/// Compares the expected sources with the expanded ones (see `comparison`):
/// `expected` holds paths relative to the expected directory, `actual` the
/// expanded files by full path, `source_root` the directory that was expanded.
/// Returns the mismatching files with their expanded text, or the relative
/// path of the first expected file that has no expanded counterpart.
pub fn compare_expansions(source_root: &str, expected: &Vec<SourceFile>, actual: &Vec<SourceFile>) -> (r: Result<Vec<SourceFile>, String>)
    ensures
        match r {
            Ok(mismatches) => {
                &&& comparison(files_view(expected@), files_view(actual@), source_root@) == Ok::<Seq<(Seq<char>, Seq<char>)>, Seq<char>>(files_view(mismatches@))
                &&& forall|i: int| 0 <= i < expected@.len()
                    && lookup(files_view(actual@), path_joined(source_root@, (#[trigger] expected@[i]).path@)) is Some
                    && lookup(files_view(actual@), path_joined(source_root@, expected@[i].path@))->0 != expected@[i].content@
                    ==> files_view(mismatches@).contains((expected@[i].path@, lookup(files_view(actual@), path_joined(source_root@, expected@[i].path@))->0))
            },
            Err(missing) => comparison(files_view(expected@), files_view(actual@), source_root@) == Err::<Seq<(Seq<char>, Seq<char>)>, Seq<char>>(missing@),
        },
{
    let ghost ex = files_view(expected@);
    let mut mismatches: Vec<SourceFile> = Vec::new();
    let mut i: usize = 0;
    assert(ex.take(0) =~= Seq::<(Seq<char>, Seq<char>)>::empty());
    assert(files_view(mismatches@) =~= Seq::<(Seq<char>, Seq<char>)>::empty());
    while i < expected.len()
        invariant
            ex == files_view(expected@),
            i <= expected@.len(),
            comparison(ex.take(i as int), files_view(actual@), source_root@) == Ok::<Seq<(Seq<char>, Seq<char>)>, Seq<char>>(files_view(mismatches@)),
        decreases expected@.len() - i,
    {
        let e = &expected[i];
        assert(ex.take(i + 1).drop_last() =~= ex.take(i as int));
        assert(ex.take(i + 1).last() == e.view_pair());
        let full = join_path(source_root, e.path.as_str());
        match find_text(actual, &full) {
            None => {
                proof {
                    lemma_comparison_err_extends(ex, files_view(actual@), source_root@, i + 1, e.path@);
                }
                return Err(e.path.clone());
            },
            Some(text) => {
                if *text != e.content {
                    let ghost before = mismatches@;
                    mismatches.push(SourceFile { path: e.path.clone(), content: text.clone() });
                    assert(files_view(mismatches@) =~= files_view(before).push((e.path@, text@)));
                }
            },
        }
        i = i + 1;
    }
    assert(ex.take(ex.len() as int) =~= ex);
    proof {
        lemma_differences_are_mismatches(ex, files_view(actual@), source_root@, files_view(mismatches@));
        assert forall|i: int| 0 <= i < expected@.len()
            && lookup(files_view(actual@), path_joined(source_root@, (#[trigger] expected@[i]).path@)) is Some
            && lookup(files_view(actual@), path_joined(source_root@, expected@[i].path@))->0 != expected@[i].content@
            implies files_view(mismatches@).contains((expected@[i].path@, lookup(files_view(actual@), path_joined(source_root@, expected@[i].path@))->0)) by {
            assert(ex[i] == (expected@[i].path@, expected@[i].content@));
        }
    }
    Ok(mismatches)
}

} // verus!
