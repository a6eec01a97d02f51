//! The search session: holds the immutable request (pattern, extension
//! filter, highlight style) and the single-owner mutable state (aggregated
//! results, error stream). Concurrent workers hand each file's outcome to
//! exactly one of the methods here; in what order makes no difference to the
//! final report.

use vstd::prelude::*;
use crate::collect::AggregateResults;
use crate::highlight::{append_bytes, styled_pattern_spec};
use crate::linesplit::{split_lines, split_lines_spec};
use crate::matchset::{lines_view, match_map, matched_line, scan_lines};
use crate::report::{
    decode_errors_spec,
    decoding_cause_bytes,
    error_line_spec,
    files_of,
    format_error,
    render,
    render_spec,
};
use crate::style::styled_bytes;
use crate::text::{ends_with, ends_with_bytes};
use crate::utf8::{is_utf8, is_utf8_bytes};

verus! {

/// A search run: the request fields are set once and read-only thereafter;
/// the results and the error stream grow as per-file outcomes arrive.
pub struct Rfind {
    pattern: Vec<u8>,
    extension: Vec<u8>,
    styled: Vec<u8>,
    results: AggregateResults,
    errors: Vec<Vec<u8>>,
}

impl Rfind {
    /// The literal search pattern.
    pub closed spec fn pattern_view(&self) -> Seq<u8> {
        self.pattern@
    }

    /// The extension filter; empty means no filter.
    pub closed spec fn extension_view(&self) -> Seq<u8> {
        self.extension@
    }

    /// The highlighted form of the pattern.
    pub closed spec fn styled_view(&self) -> Seq<u8> {
        self.styled@
    }

    /// The aggregated results, path to match map.
    pub closed spec fn results_view(&self) -> Map<Seq<u8>, Map<int, Seq<u8>>> {
        self.results@
    }

    /// The aggregated results in report order.
    pub closed spec fn results_files(&self) -> Seq<(Seq<u8>, Seq<(int, Seq<u8>)>)> {
        files_of(self.results)
    }

    /// The error-stream lines recorded so far, in order.
    pub closed spec fn error_view(&self) -> Seq<Seq<u8>> {
        lines_view(self.errors@)
    }

    pub closed spec fn wf(&self) -> bool {
        self.results.wf()
    }

    /// Build a search request: a literal pattern and an optional extension
    /// filter (empty = scan every file), with no results and no errors yet.
    /// The highlight marker around the pattern is the underline style.
    pub fn new(pattern: Vec<u8>, extension: Vec<u8>) -> (r: Rfind)
        ensures
            r.wf(),
            r.pattern_view() == pattern@,
            r.extension_view() == extension@,
            is_utf8(pattern@) ==> r.styled_view() == styled_pattern_spec(pattern@),
            r.results_view() == Map::<Seq<u8>, Map<int, Seq<u8>>>::empty(),
            r.results_files() == Seq::<(Seq<u8>, Seq<(int, Seq<u8>)>)>::empty(),
            r.error_view() == Seq::<Seq<u8>>::empty(),
    {
        let styled = styled_bytes(&pattern);
        let r = Rfind {
            pattern,
            extension,
            styled,
            results: AggregateResults::empty(),
            errors: Vec::new(),
        };
        proof {
            assert(files_of(r.results) =~= Seq::<(Seq<u8>, Seq<(int, Seq<u8>)>)>::empty());
            assert(lines_view(r.errors@) =~= Seq::<Seq<u8>>::empty());
        }
        r
    }

    /// The extension filter's decision: with an empty filter every file is
    /// scanned; with a non-empty one only files whose name ends with it,
    /// whatever the file holds.
    pub fn wants_file(&self, name: &Vec<u8>) -> (r: bool)
        ensures
            r == (self.extension_view().len() == 0 || ends_with(name@, self.extension_view())),
    {
        if self.extension.len() == 0 {
            true
        } else {
            ends_with_bytes(name, &self.extension)
        }
    }

    /// Record one decoding error for each line of the file that is not valid
    /// text, in physical line order. The match results are untouched.
    fn record_decode_errors(&mut self, path: &Vec<u8>, lines: &Vec<Vec<u8>>)
        requires
            old(self).wf(),
        ensures
            final(self).wf(),
            final(self).pattern_view() == old(self).pattern_view(),
            final(self).extension_view() == old(self).extension_view(),
            final(self).styled_view() == old(self).styled_view(),
            final(self).results_view() == old(self).results_view(),
            final(self).results_files() == old(self).results_files(),
            final(self).error_view() == old(self).error_view() + decode_errors_spec(
                lines_view(lines@),
                path@,
            ),
    {
        let cause = decoding_cause_bytes();
        let ghost snap = *self;
        let ghost lv = lines_view(lines@);
        let n: usize = lines.len();
        let mut i: usize = 0;
        proof {
            assert(lv.take(0) =~= Seq::<Seq<u8>>::empty());
            assert(lines_view(self.errors@) =~= lines_view(snap.errors@) + decode_errors_spec(
                lv.take(0),
                path@,
            ));
        }
        while i < n
            invariant
                lv == lines_view(lines@),
                lines@.len() == n,
                lv.len() == n,
                0 <= i <= n,
                cause@ == crate::report::decoding_cause(),
                self.pattern == snap.pattern,
                self.extension == snap.extension,
                self.styled == snap.styled,
                self.results == snap.results,
                lines_view(self.errors@) == lines_view(snap.errors@) + decode_errors_spec(
                    lv.take(i as int),
                    path@,
                ),
            decreases n - i,
        {
            proof {
                assert(lv.take(i as int + 1).drop_last() =~= lv.take(i as int));
                assert(lv.take(i as int + 1).last() == lv[i as int]);
                assert(lv[i as int] == lines@[i as int]@);
            }
            if !is_utf8_bytes(&lines[i]) {
                let line = format_error(&cause, path);
                let ghost before = lines_view(self.errors@);
                self.errors.push(line);
                proof {
                    assert(lines_view(self.errors@) =~= before + seq![error_line_spec(
                        crate::report::decoding_cause(),
                        path@,
                    )]);
                    assert(lines_view(snap.errors@) + decode_errors_spec(lv.take(i as int), path@)
                        + seq![error_line_spec(crate::report::decoding_cause(), path@)]
                        =~= lines_view(snap.errors@) + decode_errors_spec(
                        lv.take(i as int + 1),
                        path@,
                    ));
                }
            }
            i += 1;
        }
        proof {
            assert(lv.take(n as int) =~= lv);
        }
    }

    /// Handle one read regular file: apply the extension filter to its name,
    /// record a decoding error for each line that is not valid text, scan the
    /// remaining lines, and record a non-empty match set under the file's
    /// path. A file whose name fails the filter, or in which no line matches,
    /// leaves the results unchanged. Each file is handed in at most once per
    /// run.
    pub fn process_file(&mut self, path: &Vec<u8>, name: &Vec<u8>, lines: &Vec<Vec<u8>>)
        requires
            old(self).wf(),
            !old(self).results_view().dom().contains(path@),
        ensures
            final(self).wf(),
            final(self).pattern_view() == old(self).pattern_view(),
            final(self).extension_view() == old(self).extension_view(),
            final(self).styled_view() == old(self).styled_view(),
            ({
                if old(self).extension_view().len() > 0 && !ends_with(
                    name@,
                    old(self).extension_view(),
                ) {
                    final(self).error_view() == old(self).error_view()
                } else {
                    final(self).error_view() == old(self).error_view() + decode_errors_spec(
                        lines_view(lines@),
                        path@,
                    )
                }
            }),
            ({
                let mm = match_map(
                    lines_view(lines@),
                    old(self).pattern_view(),
                    old(self).styled_view(),
                );
                if old(self).extension_view().len() > 0 && !ends_with(
                    name@,
                    old(self).extension_view(),
                ) {
                    final(self).results_view() == old(self).results_view()
                } else if forall|ln: int|
                    !matched_line(lines_view(lines@), old(self).pattern_view(), ln) {
                    final(self).results_view() == old(self).results_view()
                } else {
                    final(self).results_view() == old(self).results_view().insert(path@, mm)
                }
            }),
    {
        if !self.wants_file(name) {
            return ;
        }
        self.record_decode_errors(path, lines);
        let ms = scan_lines(lines, &self.pattern, &self.styled);
        if ms.is_empty() {
            return ;
        }
        let mut p: Vec<u8> = Vec::new();
        append_bytes(&mut p, path);
        proof {
            assert(p@ =~= path@);
        }
        self.results.insert(p, ms);
    }

    /// Handle one read regular file given its raw bytes: split them into
    /// lines, then proceed as `process_file` does.
    pub fn process_file_bytes(&mut self, path: &Vec<u8>, name: &Vec<u8>, data: &Vec<u8>)
        requires
            old(self).wf(),
            !old(self).results_view().dom().contains(path@),
        ensures
            final(self).wf(),
            final(self).pattern_view() == old(self).pattern_view(),
            final(self).extension_view() == old(self).extension_view(),
            final(self).styled_view() == old(self).styled_view(),
            ({
                if old(self).extension_view().len() > 0 && !ends_with(
                    name@,
                    old(self).extension_view(),
                ) {
                    final(self).error_view() == old(self).error_view()
                } else {
                    final(self).error_view() == old(self).error_view() + decode_errors_spec(
                        split_lines_spec(data@),
                        path@,
                    )
                }
            }),
            ({
                let mm = match_map(
                    split_lines_spec(data@),
                    old(self).pattern_view(),
                    old(self).styled_view(),
                );
                if old(self).extension_view().len() > 0 && !ends_with(
                    name@,
                    old(self).extension_view(),
                ) {
                    final(self).results_view() == old(self).results_view()
                } else if forall|ln: int|
                    !matched_line(split_lines_spec(data@), old(self).pattern_view(), ln) {
                    final(self).results_view() == old(self).results_view()
                } else {
                    final(self).results_view() == old(self).results_view().insert(path@, mm)
                }
            }),
    {
        let lines = split_lines(data);
        self.process_file(path, name, &lines);
    }

    /// Record a recoverable failure (an entry whose metadata cannot be read,
    /// a file that fails to open): one line on the error stream, the match
    /// results untouched. The run goes on; nothing here stops later files.
    pub fn record_error(&mut self, cause: &Vec<u8>, path: &Vec<u8>)
        requires
            old(self).wf(),
        ensures
            final(self).wf(),
            final(self).pattern_view() == old(self).pattern_view(),
            final(self).extension_view() == old(self).extension_view(),
            final(self).styled_view() == old(self).styled_view(),
            final(self).results_view() == old(self).results_view(),
            final(self).results_files() == old(self).results_files(),
            final(self).error_view() == old(self).error_view().push(
                error_line_spec(cause@, path@),
            ),
    {
        let line = format_error(cause, path);
        let ghost before = lines_view(self.errors@);
        self.errors.push(line);
        proof {
            assert(lines_view(self.errors@) =~= before.push(error_line_spec(cause@, path@)));
        }
    }

    /// Render the frozen results: for each matched file in lexicographic path
    /// order, its path, its matching lines ascending by line number, then a
    /// blank line.
    pub fn report(&self) -> (out: Vec<Vec<u8>>)
        requires
            self.wf(),
        ensures
            lines_view(out@) == render_spec(self.results_files()),
    {
        render(&self.results)
    }

    /// The literal search pattern.
    pub fn pattern(&self) -> (r: &Vec<u8>)
        ensures
            r@ == self.pattern_view(),
    {
        &self.pattern
    }

    /// The extension filter; empty means no filter.
    pub fn extension(&self) -> (r: &Vec<u8>)
        ensures
            r@ == self.extension_view(),
    {
        &self.extension
    }

    /// The highlighted form of the pattern, as the styling library wrote it.
    pub fn styled_pattern(&self) -> (r: &Vec<u8>)
        ensures
            r@ == self.styled_view(),
    {
        &self.styled
    }

    /// How many files matched so far.
    pub fn match_count(&self) -> (r: usize)
        ensures
            r == self.results_files().len(),
    {
        self.results.len()
    }

    /// How many error lines were recorded so far.
    pub fn error_count(&self) -> (r: usize)
        ensures
            r == self.error_view().len(),
    {
        self.errors.len()
    }

    /// The error line at `i`, in arrival order.
    pub fn error_at(&self, i: usize) -> (r: &Vec<u8>)
        requires
            i < self.error_view().len(),
        ensures
            r@ == self.error_view()[i as int],
    {
        &self.errors[i]
    }
}

} // verus!
