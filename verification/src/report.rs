//! Deterministic rendering of the aggregated results: one header line per
//! file, the matching lines sorted by line number, a blank separator line,
//! and the error-stream line format.

use vstd::prelude::*;
use crate::collect::{AggregateResults, lemma_sorted_paths_unique, sorted_by_path};
use crate::highlight::append_bytes;
use crate::matchset::{MatchSet, lemma_sorted_entries_unique, lines_view};
use crate::text::lex_lt;
use crate::utf8::is_utf8;

verus! {

/// The decimal digits of `n`, most significant first.
pub open spec fn dec_spec(n: nat) -> Seq<u8>
    decreases n,
{
    if n < 10 {
        seq![(0x30 + n) as u8]
    } else {
        dec_spec(n / 10) + seq![(0x30 + n % 10) as u8]
    }
}

/// Two spaces: the indent before a match line.
pub open spec fn indent() -> Seq<u8> {
    seq![0x20u8, 0x20u8]
}

/// A colon and a space.
pub open spec fn colon_sep() -> Seq<u8> {
    seq![0x3au8, 0x20u8]
}

/// The bytes of `ERROR: `.
pub open spec fn error_prefix() -> Seq<u8> {
    seq![0x45u8, 0x52u8, 0x52u8, 0x4fu8, 0x52u8, 0x3au8, 0x20u8]
}

/// One rendered match line: indent, line number, colon, highlighted text.
pub open spec fn match_line_spec(e: (int, Seq<u8>)) -> Seq<u8> {
    indent() + dec_spec(e.0 as nat) + colon_sep() + e.1
}

/// The rendered match lines of one file, in entry order.
pub open spec fn entry_lines_spec(ents: Seq<(int, Seq<u8>)>) -> Seq<Seq<u8>>
    decreases ents.len(),
{
    if ents.len() == 0 {
        Seq::empty()
    } else {
        entry_lines_spec(ents.drop_last()) + seq![match_line_spec(ents.last())]
    }
}

/// One file's block: header line, match lines, blank separator line.
pub open spec fn file_block_spec(path: Seq<u8>, ents: Seq<(int, Seq<u8>)>) -> Seq<Seq<u8>> {
    seq![path] + entry_lines_spec(ents) + seq![Seq::<u8>::empty()]
}

/// The whole report, file blocks in aggregate (path) order.
pub open spec fn render_spec(files: Seq<(Seq<u8>, Seq<(int, Seq<u8>)>)>) -> Seq<Seq<u8>>
    decreases files.len(),
{
    if files.len() == 0 {
        Seq::empty()
    } else {
        render_spec(files.drop_last()) + file_block_spec(files.last().0, files.last().1)
    }
}

/// The aggregate's entries with each match set abstracted to its entry list.
pub open spec fn files_of(agg: AggregateResults) -> Seq<(Seq<u8>, Seq<(int, Seq<u8>)>)> {
    agg.entry_seq().map_values(|e: (Seq<u8>, MatchSet)| (e.0, e.1.entry_seq()))
}

/// One error-stream line: `ERROR: `, the cause, `: `, the path.
pub open spec fn error_line_spec(cause: Seq<u8>, path: Seq<u8>) -> Seq<u8> {
    error_prefix() + cause + colon_sep() + path
}

/// The bytes of `InvalidData`: the cause reported for a line that cannot be
/// decoded as valid text.
pub open spec fn decoding_cause() -> Seq<u8> {
    seq![0x49u8, 0x6eu8, 0x76u8, 0x61u8, 0x6cu8, 0x69u8, 0x64u8, 0x44u8, 0x61u8, 0x74u8, 0x61u8]
}

/// The error-stream lines a file's undecodable lines produce: one per line
/// that is not valid text, in physical line order.
pub open spec fn decode_errors_spec(lines: Seq<Seq<u8>>, path: Seq<u8>) -> Seq<Seq<u8>>
    decreases lines.len(),
{
    if lines.len() == 0 {
        Seq::empty()
    } else if !is_utf8(lines.last()) {
        decode_errors_spec(lines.drop_last(), path) + seq![error_line_spec(
            decoding_cause(),
            path,
        )]
    } else {
        decode_errors_spec(lines.drop_last(), path)
    }
}

/// The cause reported for an undecodable line.
pub fn decoding_cause_bytes() -> (r: Vec<u8>)
    ensures
        r@ == decoding_cause(),
{
    let mut v: Vec<u8> = Vec::new();
    v.push(0x49);
    v.push(0x6e);
    v.push(0x76);
    v.push(0x61);
    v.push(0x6c);
    v.push(0x69);
    v.push(0x64);
    v.push(0x44);
    v.push(0x61);
    v.push(0x74);
    v.push(0x61);
    proof {
        assert(v@ =~= decoding_cause());
    }
    v
}

/// Deterministic output: two well-formed aggregates that hold the same map —
/// the same files with the same match-set contents — render the same report,
/// entry for entry, whatever order their contents were collected in.
pub proof fn lemma_render_deterministic(a: AggregateResults, b: AggregateResults)
    requires
        a.wf(),
        b.wf(),
        a@ == b@,
    ensures
        files_of(a) == files_of(b),
{
    assert(sorted_by_path(a.kv_seq())) by {
        assert forall|i: int, j: int| 0 <= i < j < a.kv_seq().len() implies lex_lt(
            (#[trigger] a.kv_seq()[i]).0,
            (#[trigger] a.kv_seq()[j]).0,
        ) by {
            assert(a.kv_seq()[i].0 == a.entry_seq()[i].0);
            assert(a.kv_seq()[j].0 == a.entry_seq()[j].0);
        }
    }
    assert(sorted_by_path(b.kv_seq())) by {
        assert forall|i: int, j: int| 0 <= i < j < b.kv_seq().len() implies lex_lt(
            (#[trigger] b.kv_seq()[i]).0,
            (#[trigger] b.kv_seq()[j]).0,
        ) by {
            assert(b.kv_seq()[i].0 == b.entry_seq()[i].0);
            assert(b.kv_seq()[j].0 == b.entry_seq()[j].0);
        }
    }
    lemma_sorted_paths_unique(a.kv_seq(), b.kv_seq());
    assert forall|i: int| 0 <= i < files_of(a).len() implies files_of(a)[i] == files_of(b)[
        i
    ] by {
        assert(a.kv_seq()[i] == b.kv_seq()[i]);
        let m1 = a.entry_seq()[i].1;
        let m2 = b.entry_seq()[i].1;
        assert(a.kv_seq()[i] == (a.entry_seq()[i].0, m1@));
        assert(b.kv_seq()[i] == (b.entry_seq()[i].0, m2@));
        assert(m1.wf() && m2.wf());
        lemma_sorted_entries_unique(m1.entry_seq(), m2.entry_seq());
        assert(files_of(a)[i] == (a.entry_seq()[i].0, m1.entry_seq()));
        assert(files_of(b)[i] == (b.entry_seq()[i].0, m2.entry_seq()));
    }
    assert(files_of(a) =~= files_of(b));
}

/// Render `n` in decimal.
pub fn dec_bytes(n: usize) -> (r: Vec<u8>)
    ensures
        r@ == dec_spec(n as nat),
    decreases n,
{
    if n < 10 {
        let mut v: Vec<u8> = Vec::new();
        v.push(0x30 + (n as u8));
        proof {
            assert(v@ =~= dec_spec(n as nat));
        }
        v
    } else {
        let mut v = dec_bytes(n / 10);
        v.push(0x30 + ((n % 10) as u8));
        proof {
            assert(v@ =~= dec_spec(n as nat));
        }
        v
    }
}

/// Format one error-stream line for a recoverable per-entry failure.
pub fn format_error(cause: &Vec<u8>, path: &Vec<u8>) -> (r: Vec<u8>)
    ensures
        r@ == error_line_spec(cause@, path@),
{
    let mut r: Vec<u8> = Vec::new();
    r.push(0x45);
    r.push(0x52);
    r.push(0x52);
    r.push(0x4f);
    r.push(0x52);
    r.push(0x3a);
    r.push(0x20);
    proof {
        assert(r@ =~= error_prefix());
    }
    append_bytes(&mut r, cause);
    r.push(0x3a);
    r.push(0x20);
    append_bytes(&mut r, path);
    proof {
        assert(r@ =~= error_line_spec(cause@, path@));
    }
    r
}

/// Render the frozen aggregate: for each file, in the aggregate's
/// lexicographic path order, the path, then each match line sorted ascending
/// by line number, then a blank line. No matching happens here.
pub fn render(agg: &AggregateResults) -> (out: Vec<Vec<u8>>)
    requires
        agg.wf(),
    ensures
        lines_view(out@) == render_spec(files_of(*agg)),
{
    let ghost files = files_of(*agg);
    let mut out: Vec<Vec<u8>> = Vec::new();
    let n = agg.len();
    let mut i: usize = 0;
    proof {
        assert(files.take(0) =~= Seq::<(Seq<u8>, Seq<(int, Seq<u8>)>)>::empty());
        assert(lines_view(out@) =~= render_spec(files.take(0)));
    }
    while i < n
        invariant
            agg.wf(),
            files == files_of(*agg),
            n == files.len(),
            0 <= i <= n,
            lines_view(out@) == render_spec(files.take(i as int)),
        decreases n - i,
    {
        let ghost path = files[i as int].0;
        let ghost ents = files[i as int].1;
        let mut header: Vec<u8> = Vec::new();
        append_bytes(&mut header, agg.path_at(i));
        proof {
            assert(header@ =~= path);
        }
        let ghost sofar = lines_view(out@);
        out.push(header);
        proof {
            assert(lines_view(out@) =~= sofar + seq![path]);
            assert(ents.take(0) =~= Seq::<(int, Seq<u8>)>::empty());
            assert(sofar + seq![path] + entry_lines_spec(ents.take(0)) =~= sofar + seq![path]);
        }
        let ms = agg.set_at(i);
        let m = ms.len();
        proof {
            assert(ms.entry_seq() == ents);
        }
        let mut j: usize = 0;
        while j < m
            invariant
                agg.wf(),
                files == files_of(*agg),
                0 <= i < files.len(),
                *ms == agg.entry_seq()[i as int].1,
                ents == ms.entry_seq(),
                path == files[i as int].0,
                m == ents.len(),
                0 <= j <= m,
                lines_view(out@) == sofar + seq![path] + entry_lines_spec(ents.take(j as int)),
            decreases m - j,
        {
            let ln = ms.line_no_at(j);
            let mut lineout: Vec<u8> = Vec::new();
            lineout.push(0x20);
            lineout.push(0x20);
            proof {
                assert(lineout@ =~= indent());
            }
            let num = dec_bytes(ln);
            append_bytes(&mut lineout, &num);
            lineout.push(0x3a);
            lineout.push(0x20);
            append_bytes(&mut lineout, ms.text_at(j));
            proof {
                assert(1 <= ents[j as int].0);
                assert(ln as nat == ents[j as int].0 as nat);
                assert(lineout@ =~= match_line_spec(ents[j as int]));
            }
            let ghost before = lines_view(out@);
            out.push(lineout);
            proof {
                assert(lines_view(out@) =~= before + seq![match_line_spec(ents[j as int])]);
                assert(ents.take(j as int + 1).drop_last() =~= ents.take(j as int));
                assert(ents.take(j as int + 1).last() == ents[j as int]);
                assert(before + seq![match_line_spec(ents[j as int])] =~= sofar + seq![path]
                    + entry_lines_spec(ents.take(j as int + 1)));
            }
            j += 1;
        }
        let ghost before = lines_view(out@);
        out.push(Vec::new());
        proof {
            assert(ents.take(m as int) =~= ents);
            assert(lines_view(out@) =~= before + seq![Seq::<u8>::empty()]);
            assert(files.take(i as int + 1).drop_last() =~= files.take(i as int));
            assert(files.take(i as int + 1).last() == files[i as int]);
            assert(before + seq![Seq::<u8>::empty()] =~= render_spec(files.take(i as int))
                + file_block_spec(path, ents));
        }
        i += 1;
    }
    proof {
        assert(files.take(n as int) =~= files);
    }
    out
}

} // verus!
