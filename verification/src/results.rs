//! The index of result files that the dashboard reads: each file lies at
//! `results/<run>/<file name>`, and the dashboard groups the files by run.

use vstd::prelude::*;

use crate::json::{parse_json, parsed_json, Json};

use crate::text::{
    join, lemma_join_split, lemma_lex_antisymmetric, lemma_lex_reflexive, lemma_lex_total, lemma_lex_transitive, lex_le, split_on, split_on_slash,
    string_lex_le,
};

verus! {

/// The path a result file is fetched under is its path within the results,
/// from the root.
pub proof fn lemma_fetched_path(path: Seq<char>)
    requires
        is_result_path(path),
    ensures
        "/results/"@ + split_on(path, '/')[1] + "/"@ + split_on(path, '/')[2] == "/"@ + path,
{
    reveal_strlit("/results/");
    reveal_strlit("/");
    reveal_strlit("results");
    let parts = split_on(path, '/');
    lemma_join_split(path, '/');
    reveal_with_fuel(join, 3);
    assert(parts.drop_last().drop_last() =~= seq![parts[0]]);
    assert(parts.drop_last().last() == parts[1]);
    assert(join(parts, '/') =~= parts[0] + seq!['/'] + parts[1] + seq!['/'] + parts[2]);
    assert("/results/"@ + parts[1] + "/"@ + parts[2] =~= "/"@ + path);
}

/// One result file: the run it belongs to and its file name.
#[derive(Debug, Clone)]
pub struct ResultFile {
    run: String,
    filename: String,
}

/// The parts of a path to a result file: `results`, the run and the file
/// name, separated by `/`.
pub open spec fn is_result_path(path: Seq<char>) -> bool {
    let parts = split_on(path, '/');
    parts.len() == 3 && parts[0] == "results"@
}

/// Whether the path is that of a result file.
pub fn is_result_path_text(path: &String) -> (b: bool)
    ensures
        b == is_result_path(path@),
{
    let parts = split_on_slash(path.as_str());
    let results = String::from_str("results");
    proof {
        assert(parts@.len() == split_on(path@, '/').len());
    }
    if parts.len() != 3 {
        return false;
    }
    proof {
        assert(parts@[0]@ == split_on(path@, '/')[0]);
    }
    parts[0] == results
}

/// The text of a JSON string, or nothing for another value.
pub open spec fn string_text(value: Json) -> Seq<char> {
    match value {
        Json::String(s) => s@,
        _ => Seq::empty(),
    }
}

/// The index of result files lists them: its text parses into an array of
/// strings, each the path of a result file.
pub open spec fn lists_result_files(index: Seq<char>) -> bool {
    parsed_json(index) matches Some(Json::Array(items)) && forall|i: int|
        0 <= i < items@.len() ==> (#[trigger] items@[i]) is String && is_result_path(string_text(items@[i]))
}

/// The paths that the index lists (see `lists_result_files`).
pub open spec fn listed_paths(index: Seq<char>) -> Seq<Seq<char>> {
    match parsed_json(index) {
        Some(Json::Array(items)) => items@.map_values(|item: Json| string_text(item)),
        _ => Seq::empty(),
    }
}

impl ResultFile {
    /// The run and the file name.
    pub closed spec fn view_pair(&self) -> (Seq<char>, Seq<char>) {
        (self.run@, self.filename@)
    }

    /// The result file at `results/<run>/<file name>`.
    pub fn from(full_path: String) -> (f: Self)
        requires
            is_result_path(full_path@),
        ensures
            f.view_pair() == (split_on(full_path@, '/')[1], split_on(full_path@, '/')[2]),
    {
        let mut parts = split_on_slash(full_path.as_str());
        let filename = parts.pop().unwrap();
        let run = parts.pop().unwrap();
        ResultFile { run, filename }
    }

    /// The run the file belongs to.
    pub fn run(&self) -> (r: String)
        ensures
            r@ == self.view_pair().0,
    {
        self.run.clone()
    }

    /// The path under which the dashboard fetches the file.
    pub fn path(&self) -> (p: String)
        ensures
            p@ == "/results/"@ + self.view_pair().0 + "/"@ + self.view_pair().1,
    {
        let mut p = String::from_str("/results/");
        p.append(self.run.as_str());
        p.append("/");
        p.append(self.filename.as_str());
        p
    }
}

/// The result files, in the order they were listed.
#[derive(Debug, Clone)]
pub struct ResultFiles {
    result_files: Vec<ResultFile>,
}

/// The files of `files` that belong to `run`, in their order.
pub open spec fn with_run(files: Seq<(Seq<char>, Seq<char>)>, run: Seq<char>) -> Seq<(Seq<char>, Seq<char>)>
    decreases files.len(),
{
    if files.len() == 0 {
        files
    } else if files.last().0 == run {
        with_run(files.drop_last(), run).push(files.last())
    } else {
        with_run(files.drop_last(), run)
    }
}

/// The runs of `files`, each once, in the order they first occur.
pub open spec fn runs_in_order(files: Seq<(Seq<char>, Seq<char>)>) -> Seq<Seq<char>>
    decreases files.len(),
{
    if files.len() == 0 {
        Seq::empty()
    } else {
        let before = runs_in_order(files.drop_last());
        if before.contains(files.last().0) {
            before
        } else {
            before.push(files.last().0)
        }
    }
}

/// Some file of `files` belongs to `run`.
pub open spec fn has_run(files: Seq<(Seq<char>, Seq<char>)>, run: Seq<char>) -> bool {
    exists|i: int| 0 <= i < files.len() && (#[trigger] files[i]).0 == run
}

/// `run` is the latest run of `files`: one of them belongs to it, and every
/// run of theirs comes before it, or is it, in lexicographic order.
pub open spec fn is_latest_run(files: Seq<(Seq<char>, Seq<char>)>, run: Seq<char>) -> bool {
    &&& has_run(files, run)
    &&& forall|i: int| 0 <= i < files.len() ==> lex_le((#[trigger] files[i]).0, run)
}

/// At most one run of the files is the latest.
pub proof fn lemma_latest_run_unique(files: Seq<(Seq<char>, Seq<char>)>, a: Seq<char>, b: Seq<char>)
    requires
        is_latest_run(files, a),
        is_latest_run(files, b),
    ensures
        a == b,
{
    let i = choose|i: int| 0 <= i < files.len() && (#[trigger] files[i]).0 == a;
    let j = choose|j: int| 0 <= j < files.len() && (#[trigger] files[j]).0 == b;
    assert(lex_le(files[i].0, b));
    assert(lex_le(files[j].0, a));
    lemma_lex_antisymmetric(a, b);
}

/// How many files of `files` belong to each run of `runs`, added up.
pub open spec fn files_of_runs(files: Seq<(Seq<char>, Seq<char>)>, runs: Seq<Seq<char>>) -> nat
    decreases runs.len(),
{
    if runs.len() == 0 {
        0
    } else {
        files_of_runs(files, runs.drop_last()) + with_run(files, runs.last()).len()
    }
}

/// Every file kept for `run` belongs to it.
proof fn lemma_with_run_belongs(files: Seq<(Seq<char>, Seq<char>)>, run: Seq<char>)
    ensures
        forall|i: int| 0 <= i < with_run(files, run).len() ==> (#[trigger] with_run(files, run)[i]).0 == run,
    decreases files.len(),
{
    if files.len() > 0 {
        let front = files.drop_last();
        lemma_with_run_belongs(front, run);
        let w = with_run(files, run);
        let w0 = with_run(front, run);
        assert forall|i: int| 0 <= i < w.len() implies (#[trigger] w[i]).0 == run by {
            if files.last().0 == run {
                assert(w == w0.push(files.last()));
                if i < w0.len() {
                    assert(w[i] == w0[i]);
                }
            } else {
                assert(w == w0);
            }
        }
    }
}

/// Where every file belongs to `run`, filtering by `run` keeps them all;
/// where none does, it keeps none.
proof fn lemma_with_run_all_or_none(files: Seq<(Seq<char>, Seq<char>)>, run: Seq<char>)
    ensures
        (forall|i: int| 0 <= i < files.len() ==> (#[trigger] files[i]).0 == run) ==> with_run(files, run) == files,
        (forall|i: int| 0 <= i < files.len() ==> (#[trigger] files[i]).0 != run) ==> with_run(files, run).len() == 0,
    decreases files.len(),
{
    if files.len() > 0 {
        lemma_with_run_all_or_none(files.drop_last(), run);
        if forall|i: int| 0 <= i < files.len() ==> (#[trigger] files[i]).0 == run {
            assert forall|i: int| 0 <= i < files.drop_last().len() implies (#[trigger] files.drop_last()[i]).0 == run by {
                assert(files.drop_last()[i] == files[i]);
            }
            assert(files.drop_last().push(files.last()) =~= files);
        }
        if forall|i: int| 0 <= i < files.len() ==> (#[trigger] files[i]).0 != run {
            assert forall|i: int| 0 <= i < files.drop_last().len() implies (#[trigger] files.drop_last()[i]).0 != run by {
                assert(files.drop_last()[i] == files[i]);
            }
            assert(files[files.len() - 1].0 != run);
        }
    }
}

/// The runs listed in order are exactly the runs of the files, each once.
proof fn lemma_runs_in_order(files: Seq<(Seq<char>, Seq<char>)>)
    ensures
        runs_in_order(files).no_duplicates(),
        forall|r: Seq<char>| #[trigger] runs_in_order(files).contains(r) <==> has_run(files, r),
    decreases files.len(),
{
    if files.len() > 0 {
        let front = files.drop_last();
        let x = files.last();
        lemma_runs_in_order(front);
        let before = runs_in_order(front);
        assert forall|r: Seq<char>| #[trigger] runs_in_order(files).contains(r) <==> has_run(files, r) by {
            if has_run(files, r) {
                let i = choose|i: int| 0 <= i < files.len() && (#[trigger] files[i]).0 == r;
                if i < files.len() - 1 {
                    assert(front[i] == files[i]);
                    assert(has_run(front, r));
                }
            }
            if has_run(front, r) {
                let i = choose|i: int| 0 <= i < front.len() && (#[trigger] front[i]).0 == r;
                assert(files[i] == front[i]);
            }
            if r == x.0 {
                assert(files[files.len() - 1].0 == r);
            }
            if !before.contains(x.0) {
                let after = before.push(x.0);
                if after.contains(r) {
                    let w = choose|w: int| 0 <= w < after.len() && after[w] == r;
                    if w < before.len() {
                        assert(before[w] == r);
                    }
                }
                if before.contains(r) {
                    let w = choose|w: int| 0 <= w < before.len() && before[w] == r;
                    assert(after[w] == r);
                }
                if r == x.0 {
                    assert(after[before.len() as int] == r);
                }
            }
        }
    }
}

/// Adding a file to the list adds one to the count of the runs, if its run
/// is among them (once).
proof fn lemma_files_of_runs_push(files: Seq<(Seq<char>, Seq<char>)>, x: (Seq<char>, Seq<char>), runs: Seq<Seq<char>>)
    requires
        runs.no_duplicates(),
    ensures
        files_of_runs(files.push(x), runs) == files_of_runs(files, runs) + if runs.contains(x.0) {
            1nat
        } else {
            0nat
        },
    decreases runs.len(),
{
    assert(files.push(x).drop_last() =~= files);
    if runs.len() > 0 {
        let front = runs.drop_last();
        let y = runs.last();
        assert(front.no_duplicates());
        lemma_files_of_runs_push(files, x, front);
        if front.contains(x.0) {
            let w = choose|w: int| 0 <= w < front.len() && front[w] == x.0;
            assert(runs[w] == x.0);
            assert(runs.contains(x.0));
        }
        if runs.contains(x.0) && !front.contains(x.0) {
            let w = choose|w: int| 0 <= w < runs.len() && runs[w] == x.0;
            if w < front.len() {
                assert(front[w] == x.0);
            }
            assert(y == x.0);
        }
        if y == x.0 {
            assert(runs[runs.len() - 1] == x.0);
        }
    }
}

/// Filtering keeps every file of the run.
proof fn lemma_with_run_keeps(files: Seq<(Seq<char>, Seq<char>)>, run: Seq<char>)
    ensures
        forall|i: int| 0 <= i < files.len() && (#[trigger] files[i]).0 == run ==> with_run(files, run).contains(files[i]),
    decreases files.len(),
{
    if files.len() > 0 {
        let front = files.drop_last();
        lemma_with_run_keeps(front, run);
        let w = with_run(files, run);
        let w0 = with_run(front, run);
        assert forall|i: int| 0 <= i < files.len() && (#[trigger] files[i]).0 == run implies w.contains(files[i]) by {
            if i < files.len() - 1 {
                assert(front[i] == files[i]);
                assert(w0.contains(front[i]));
                let k = choose|k: int| 0 <= k < w0.len() && w0[k] == front[i];
                if files.last().0 == run {
                    assert(w[k] == w0[k]);
                } else {
                    assert(w == w0);
                }
            } else {
                assert(w[w.len() - 1] == files[i]);
            }
        }
    }
}

/// The laws of filtering result files by run (`ResultFiles::filter_by_run`,
/// whose files are `with_run` of the files) and of listing their runs
/// (`ResultFiles::runs`, which lists `runs_in_order`): filtering keeps every
/// file of the run and no other; filtering again by the run changes nothing;
/// filtering the files of one run by another run keeps nothing; and the files
/// of the runs, run by run, add up to all the files.
pub proof fn lemma_filter_by_run_laws(x: ResultFiles, run: Seq<char>, other: Seq<char>)
    ensures
        forall|i: int| 0 <= i < with_run(x.files_view(), run).len() ==> (#[trigger] with_run(x.files_view(), run)[i]).0 == run,
        forall|i: int| 0 <= i < x.files_view().len() && (#[trigger] x.files_view()[i]).0 == run ==> with_run(x.files_view(), run).contains(x.files_view()[i]),
        with_run(with_run(x.files_view(), run), run) == with_run(x.files_view(), run),
        run != other ==> with_run(with_run(x.files_view(), run), other).len() == 0,
        files_of_runs(x.files_view(), runs_in_order(x.files_view())) == x.files_view().len(),
{
    let files = x.files_view();
    lemma_with_run_belongs(files, run);
    lemma_with_run_keeps(files, run);
    lemma_with_run_all_or_none(with_run(files, run), run);
    lemma_with_run_all_or_none(with_run(files, run), other);
    lemma_files_of_runs_all(files);
}

/// The files of the runs, each run once, add up to all the files.
proof fn lemma_files_of_runs_all(files: Seq<(Seq<char>, Seq<char>)>)
    ensures
        files_of_runs(files, runs_in_order(files)) == files.len(),
    decreases files.len(),
{
    if files.len() > 0 {
        let front = files.drop_last();
        let x = files.last();
        assert(front.push(x) =~= files);
        lemma_files_of_runs_all(front);
        lemma_runs_in_order(front);
        let before = runs_in_order(front);
        lemma_files_of_runs_push(front, x, before);
        if !before.contains(x.0) {
            assert(!has_run(front, x.0));
            assert forall|i: int| 0 <= i < front.len() implies (#[trigger] front[i]).0 != x.0 by {
                if front[i].0 == x.0 {
                    assert(has_run(front, x.0));
                }
            }
            lemma_with_run_all_or_none(front, x.0);
            let after = before.push(x.0);
            assert(after.drop_last() =~= before);
            assert(files.drop_last() =~= front);
            assert(with_run(files, x.0).len() == with_run(front, x.0).len() + 1);
        }
    }
}

impl ResultFiles {
    /// Each file as its run and file name.
    pub closed spec fn files_view(&self) -> Seq<(Seq<char>, Seq<char>)> {
        self.result_files@.map_values(|f: ResultFile| f.view_pair())
    }

    /// The result files at the given paths, in their order.
    pub fn from(full_paths: Vec<String>) -> (r: Self)
        requires
            forall|i: int| 0 <= i < full_paths@.len() ==> is_result_path(#[trigger] full_paths@[i]@),
        ensures
            r.files_view().len() == full_paths@.len(),
            forall|i: int| 0 <= i < full_paths@.len() ==> #[trigger] r.files_view()[i] == (
                split_on(full_paths@[i]@, '/')[1],
                split_on(full_paths@[i]@, '/')[2],
            ),
    {
        let mut result_files: Vec<ResultFile> = Vec::new();
        let mut k: usize = 0;
        while k < full_paths.len()
            invariant
                k <= full_paths@.len(),
                forall|i: int| 0 <= i < full_paths@.len() ==> is_result_path(#[trigger] full_paths@[i]@),
                result_files@.len() == k,
                forall|i: int| 0 <= i < k ==> #[trigger] result_files@[i].view_pair() == (
                    split_on(full_paths@[i]@, '/')[1],
                    split_on(full_paths@[i]@, '/')[2],
                ),
            decreases full_paths.len() - k,
        {
            let path = full_paths[k].clone();
            assert(is_result_path(full_paths@[k as int]@));
            result_files.push(ResultFile::from(path));
            k = k + 1;
        }
        ResultFiles { result_files }
    }

    /// The result files that an index lists, given as its text: a JSON array
    /// of the files' paths (see `lists_result_files`); `None` where the text
    /// is not such an array.
    pub fn from_index(index: &String) -> (r: Option<Self>)
        ensures
            r is Some <==> lists_result_files(index@),
            r matches Some(files) ==> files.files_view().len() == listed_paths(index@).len() && forall|i: int|
                0 <= i < listed_paths(index@).len() ==> #[trigger] files.files_view()[i] == (
                    split_on(listed_paths(index@)[i], '/')[1],
                    split_on(listed_paths(index@)[i], '/')[2],
                ),
    {
        let items = match parse_json(index) {
            Some(Json::Array(items)) => items,
            _ => {
                return None;
            },
        };
        let ghost listed = listed_paths(index@);
        let mut paths: Vec<String> = Vec::new();
        let mut k: usize = 0;
        while k < items.len()
            invariant
                k <= items@.len(),
                parsed_json(index@) == Some(Json::Array(items)),
                listed == items@.map_values(|item: Json| string_text(item)),
                paths@.len() == k,
                forall|i: int| 0 <= i < k ==> (#[trigger] items@[i]) is String && is_result_path(string_text(items@[i])),
                forall|i: int| 0 <= i < k ==> #[trigger] paths@[i]@ == listed[i],
            decreases items.len() - k,
        {
            match &items[k] {
                Json::String(path) => {
                    if !is_result_path_text(path) {
                        return None;
                    }
                    paths.push(path.clone());
                },
                _ => {
                    return None;
                },
            }
            k = k + 1;
        }
        proof {
            assert forall|i: int| 0 <= i < paths@.len() implies is_result_path(#[trigger] paths@[i]@) by {
                assert(paths@[i]@ == listed[i]);
                assert(items@[i] is String && is_result_path(string_text(items@[i])));
            }
        }
        let files = ResultFiles::from(paths);
        proof {
            assert forall|i: int| 0 <= i < listed.len() implies #[trigger] files.files_view()[i] == (
                split_on(listed[i], '/')[1],
                split_on(listed[i], '/')[2],
            ) by {
                assert(paths@[i]@ == listed[i]);
            }
        }
        Some(files)
    }

    /// The paths under which the dashboard fetches the files, in order.
    pub fn paths(&self) -> (paths: Vec<String>)
        ensures
            paths@.len() == self.files_view().len(),
            forall|i: int| 0 <= i < paths@.len() ==> #[trigger] paths@[i]@ == "/results/"@ + self.files_view()[i].0 + "/"@
                + self.files_view()[i].1,
    {
        let mut paths: Vec<String> = Vec::new();
        let mut k: usize = 0;
        while k < self.result_files.len()
            invariant
                k <= self.result_files@.len(),
                paths@.len() == k,
                forall|i: int| 0 <= i < k ==> #[trigger] paths@[i]@ == "/results/"@ + self.files_view()[i].0 + "/"@
                    + self.files_view()[i].1,
            decreases self.result_files.len() - k,
        {
            paths.push(self.result_files[k].path());
            k = k + 1;
        }
        paths
    }

    /// How many files there are.
    pub fn len(&self) -> (n: usize)
        ensures
            n == self.files_view().len(),
    {
        self.result_files.len()
    }

    /// The runs of the files, each once, in the order they first occur.
    pub fn runs(&self) -> (runs: Vec<String>)
        ensures
            runs@.map_values(|r: String| r@) == runs_in_order(self.files_view()),
            runs@.map_values(|r: String| r@).no_duplicates(),
            forall|r: Seq<char>| #[trigger] has_run(self.files_view(), r) <==> runs@.map_values(
                |s: String| s@,
            ).contains(r),
    {
        let ghost files = self.files_view();
        let mut runs: Vec<String> = Vec::new();
        let mut k: usize = 0;
        while k < self.result_files.len()
            invariant
                k <= self.result_files@.len(),
                files == self.files_view(),
                files.len() == self.result_files@.len(),
                runs@.map_values(|r: String| r@) == runs_in_order(files.take(k as int)),
                runs@.map_values(|r: String| r@).no_duplicates(),
                forall|r: Seq<char>| #[trigger] has_run(files.take(k as int), r) <==> runs@.map_values(
                    |s: String| s@,
                ).contains(r),
            decreases self.result_files.len() - k,
        {
            let run = self.result_files[k].run();
            let ghost before = runs@.map_values(|s: String| s@);
            let mut seen = false;
            let mut m: usize = 0;
            while m < runs.len()
                invariant
                    m <= runs@.len(),
                    before == runs@.map_values(|s: String| s@),
                    seen == before.take(m as int).contains(run@),
                decreases runs.len() - m,
            {
                let same = runs[m] == run;
                if same {
                    seen = true;
                }
                proof {
                    let t0 = before.take(m as int);
                    let t1 = before.take(m + 1);
                    assert(before[m as int] == runs@[m as int]@);
                    assert(t1 =~= t0.push(before[m as int]));
                    if seen {
                        if !same {
                            let w = choose|w: int| 0 <= w < t0.len() && t0[w] == run@;
                            assert(t1[w] == run@);
                        } else {
                            assert(t1[m as int] == run@);
                        }
                    } else {
                        assert forall|w: int| 0 <= w < t1.len() implies t1[w] != run@ by {
                            if w < m {
                                assert(t0[w] == t1[w]);
                            }
                        }
                    }
                }
                m = m + 1;
            }
            assert(before.take(runs@.len() as int) =~= before);
            proof {
                assert(files[k as int].0 == run@);
                assert(files.take(k + 1).drop_last() =~= files.take(k as int));
                assert(files.take(k + 1).last() == files[k as int]);
                assert forall|r: Seq<char>| #[trigger] has_run(files.take(k + 1), r) <==> (has_run(files.take(k as int), r) || r == run@) by {
                    if has_run(files.take(k + 1), r) {
                        let i = choose|i: int| 0 <= i < files.take(k + 1).len() && (#[trigger] files.take(k + 1)[i]).0 == r;
                        if i < k {
                            assert(files.take(k as int)[i] == files.take(k + 1)[i]);
                        }
                    }
                    if has_run(files.take(k as int), r) {
                        let i = choose|i: int| 0 <= i < files.take(k as int).len() && (#[trigger] files.take(k as int)[i]).0 == r;
                        assert(files.take(k + 1)[i] == files.take(k as int)[i]);
                    }
                    if r == run@ {
                        assert(files.take(k + 1)[k as int].0 == r);
                    }
                }
            }
            if !seen {
                runs.push(run);
                proof {
                    let after = runs@.map_values(|s: String| s@);
                    assert(after =~= before.push(run@));
                    assert forall|r: Seq<char>| #[trigger] after.contains(r) <==> (before.contains(r) || r == run@) by {
                        if after.contains(r) {
                            let w = choose|w: int| 0 <= w < after.len() && after[w] == r;
                            if w < before.len() {
                                assert(before[w] == r);
                            }
                        }
                        if before.contains(r) {
                            let w = choose|w: int| 0 <= w < before.len() && before[w] == r;
                            assert(after[w] == r);
                        }
                        if r == run@ {
                            assert(after[before.len() as int] == r);
                        }
                    }
                }
            }
            proof {
                let after = runs@.map_values(|s: String| s@);
                assert(after.contains(run@));
                assert forall|r: Seq<char>| #[trigger] has_run(files.take(k + 1), r) <==> after.contains(r) by {
                    assert(has_run(files.take(k + 1), r) <==> (has_run(files.take(k as int), r) || r == run@));
                    assert(has_run(files.take(k as int), r) <==> before.contains(r));
                    assert(after.contains(r) <==> (before.contains(r) || r == run@));
                    if has_run(files.take(k + 1), r) && r != run@ {
                        assert(has_run(files.take(k as int), r));
                        assert(before.contains(r));
                    }
                    if after.contains(r) && r != run@ {
                        if seen {
                            assert(after == before);
                        }
                        assert(before.contains(r));
                        assert(has_run(files.take(k as int), r));
                    }
                }
            }
            k = k + 1;
        }
        assert(files.take(files.len() as int) =~= files);
        runs
    }

    /// The files of the latest run, in lexicographic order of the run names;
    /// there is some file.
    pub fn only_latest_run(&self) -> (r: Self)
        requires
            self.files_view().len() > 0,
        ensures
            exists|run: Seq<char>| is_latest_run(self.files_view(), run) && r.files_view() == with_run(
                self.files_view(),
                run,
            ),
    {
        let runs = self.runs();
        let ghost names = runs@.map_values(|s: String| s@);
        let ghost files = self.files_view();
        proof {
            assert(has_run(files, files[0].0));
            assert(names.contains(files[0].0));
        }
        proof {
            let w = choose|w: int| 0 <= w < names.len() && names[w] == files[0].0;
        }
        let mut latest = runs[0].clone();
        proof {
            assert(latest@ == names[0]);
            lemma_lex_reflexive(latest@);
        }
        let mut k: usize = 1;
        while k < runs.len()
            invariant
                1 <= k <= runs@.len(),
                names == runs@.map_values(|s: String| s@),
                names.contains(latest@),
                forall|i: int| 0 <= i < k ==> lex_le(#[trigger] names[i], latest@),
            decreases runs.len() - k,
        {
            assert(names[k as int] == runs@[k as int]@);
            if !string_lex_le(&runs[k], &latest) {
                proof {
                    lemma_lex_reflexive(names[k as int]);
                    lemma_lex_total(names[k as int], latest@);
                    assert forall|i: int| 0 <= i < k implies lex_le(#[trigger] names[i], runs@[k as int]@) by {
                        lemma_lex_transitive(names[i], latest@, names[k as int]);
                    }
                }
                latest = runs[k].clone();
            }
            k = k + 1;
        }
        proof {
            assert(names.contains(latest@));
            let j = choose|j: int| 0 <= j < names.len() && names[j] == latest@;
            assert(has_run(files, names[j]));
            assert forall|i: int| 0 <= i < files.len() implies lex_le((#[trigger] files[i]).0, latest@) by {
                assert(has_run(files, files[i].0));
                assert(names.contains(files[i].0));
                let m = choose|m: int| 0 <= m < names.len() && names[m] == files[i].0;
                assert(lex_le(names[m], latest@));
            }
            assert(is_latest_run(files, latest@));
        }
        self.filter_by_run(&latest)
    }

    /// The files that belong to `run`, in their order.
    pub fn filter_by_run(&self, run: &String) -> (r: Self)
        ensures
            r.files_view() == with_run(self.files_view(), run@),
    {
        let ghost files = self.files_view();
        let mut filtered: Vec<ResultFile> = Vec::new();
        let mut k: usize = 0;
        while k < self.result_files.len()
            invariant
                k <= self.result_files@.len(),
                files == self.files_view(),
                files.len() == self.result_files@.len(),
                filtered@.map_values(|f: ResultFile| f.view_pair()) == with_run(files.take(k as int), run@),
            decreases self.result_files.len() - k,
        {
            let file = &self.result_files[k];
            proof {
                assert(files.take(k + 1).drop_last() =~= files.take(k as int));
                assert(files.take(k + 1).last() == file.view_pair());
            }
            if file.run == *run {
                let ghost before = filtered@;
                filtered.push(ResultFile { run: file.run.clone(), filename: file.filename.clone() });
                proof {
                    assert(filtered@.map_values(|f: ResultFile| f.view_pair()) =~= before.map_values(
                        |f: ResultFile| f.view_pair(),
                    ).push(file.view_pair()));
                }
            }
            k = k + 1;
        }
        assert(files.take(files.len() as int) =~= files);
        let r = ResultFiles { result_files: filtered };
        r
    }
}

} // verus!
