//! The match locator: finds every non-overlapping occurrence of a literal
//! search string in a file's contents and records where it sits, both in the
//! file (byte offsets) and on its line (character offsets).

use vstd::prelude::*;
use vstd::string::StrSliceExecFns;
use vstd::string::StringSliceAdditionalSpecFns;
use vstd::utf8::decode_utf8;
use vstd::utf8::is_char_boundary;
use vstd::utf8::valid_utf8;

use crate::match_struct::Match;
use crate::match_struct::MatchView;
use crate::text::NEWLINE;
use crate::text::count_chars;
use crate::text::count_newlines;
use crate::text::find_line_end;
use crate::text::find_line_start;
use crate::text::is_match_at;
use crate::text::lemma_boundary_subrange_valid;
use crate::text::lemma_boundary_suffix_transfer;
use crate::text::lemma_decode_concat_parts;
use crate::text::lemma_line_boundaries;
use crate::text::lemma_line_end_props;
use crate::text::lemma_line_start_props;
use crate::text::lemma_match_boundaries;
use crate::text::lemma_match_positions_props;
use crate::text::match_at;
use crate::text::line_end;
use crate::text::line_start;
use crate::text::match_positions;
use crate::text::newline_count;

verus! {

broadcast use vstd::utf8::group_utf8_lib;

/// What a correctly located record says about the occurrence of a pattern of
/// byte length `plen` at byte offset `i` of `text`.
pub open spec fn match_record_ok(
    text: Seq<u8>,
    path: Seq<char>,
    plen: int,
    i: int,
    m: MatchView,
) -> bool {
    let ls = line_start(text, i);
    let le = line_end(text, i);
    &&& m.filepath == path
    &&& m.file_index_start == i
    &&& m.match_length == plen
    &&& m.line == decode_utf8(text.subrange(ls, le))
    &&& m.line_num == newline_count(text.subrange(0, ls))
    &&& m.start_on_line == decode_utf8(text.subrange(ls, i)).len()
    &&& m.end_on_line == decode_utf8(text.subrange(ls, i + plen)).len()
    &&& m.replacement == Seq::<char>::empty()
    &&& 0 <= m.start_on_line <= m.end_on_line
    &&& m.start_on_line <= m.line.len()
}

/// Finds the line containing byte offset `index`: its starting byte offset
/// and its text, without the trailing newline. An offset at or past the end
/// of the contents is out of bounds.
pub fn get_line<'a>(contents: &'a str, index: usize) -> (r: Result<(usize, &'a str), ()>)
    ensures
        ({
            let t = contents.spec_bytes();
            match r {
                Ok(p) => {
                    &&& index < t.len()
                    &&& p.0 == line_start(t, index as int)
                    &&& p.1@ == decode_utf8(
                        t.subrange(line_start(t, index as int), line_end(t, index as int)),
                    )
                    &&& p.1.spec_bytes() == t.subrange(
                        line_start(t, index as int),
                        line_end(t, index as int),
                    )
                },
                Err(e) => index >= t.len(),
            }
        }),
{
    let bytes = contents.as_bytes_vec();
    let ghost t = contents.spec_bytes();
    if index >= bytes.len() {
        return Err(());
    }
    let line_s = find_line_start(&bytes, index);
    let line_e = find_line_end(&bytes, index);
    proof {
        lemma_line_start_props(t, index as int);
        lemma_line_end_props(t, index as int);
        lemma_line_boundaries(t, index as int);
        lemma_boundary_suffix_transfer(t, line_s as int, line_e - line_s);
    }
    let (_, rest) = contents.split_at(line_s);
    let (line, _) = rest.split_at(line_e - line_s);
    proof {
        assert(rest.spec_bytes() =~= t.subrange(line_s as int, t.len() as int));
        assert(line.spec_bytes() =~= t.subrange(line_s as int, line_e as int));
        vstd::utf8::encode_utf8_decode_utf8(line@);
    }
    Ok((line_s, line))
}

/// Builds the record for an occurrence of byte length `plen` at byte offset
/// `i`, looking up its line and converting the in-line byte offsets to
/// character offsets.
fn build_match(contents: &str, bytes: &Vec<u8>, i: usize, plen: usize, filepath: &str) -> (m:
    Match)
    requires
        bytes@ == contents.spec_bytes(),
        1 <= plen,
        i + plen <= bytes@.len(),
        is_char_boundary(bytes@, i as int),
        is_char_boundary(bytes@, i + plen),
    ensures
        match_record_ok(bytes@, filepath@, plen as int, i as int, m@),
{
    let ghost t = bytes@;
    let n = bytes.len();
    let line_s = find_line_start(bytes, i);
    let line_e = find_line_end(bytes, i);
    proof {
        lemma_line_start_props(t, i as int);
        lemma_line_end_props(t, i as int);
        lemma_line_boundaries(t, i as int);
        lemma_boundary_subrange_valid(t, line_s as int, i as int);
        lemma_boundary_subrange_valid(t, line_s as int, i + plen);
        lemma_boundary_suffix_transfer(t, line_s as int, line_e - line_s);
    }
    let (_, rest) = contents.split_at(line_s);
    let (line, _) = rest.split_at(line_e - line_s);
    let start_on_line = count_chars(bytes, line_s, i);
    let end_on_line = count_chars(bytes, line_s, i + plen);
    let line_num = count_newlines(bytes, line_s);
    proof {
        assert(rest.spec_bytes() =~= t.subrange(line_s as int, t.len() as int));
        assert(line.spec_bytes() =~= t.subrange(line_s as int, line_e as int));
        vstd::utf8::encode_utf8_decode_utf8(line@);
        lemma_decode_concat_parts(t, line_s as int, i as int, i + plen);
        lemma_decode_concat_parts(t, line_s as int, i as int, line_e as int);
    }
    Match::new(
        filepath.to_owned(),
        i,
        plen,
        start_on_line,
        end_on_line,
        String::new(),
        line.to_owned(),
        line_num,
    )
}

/// Locates every non-overlapping occurrence of `search_pattern` in
/// `contents`, scanning left to right; an empty pattern matches nothing.
/// Records come back in ascending byte-offset order, one per occurrence,
/// with exact line lookups and character offsets; when the pattern contains
/// no newline, both character offsets index into the recorded line.
pub fn locate(contents: &str, search_pattern: &str, filepath: &str) -> (r: Vec<Match>)
    ensures
        ({
            let t = contents.spec_bytes();
            let p = search_pattern.spec_bytes();
            let ps = match_positions(t, p, 0);
            &&& r@.len() == ps.len()
            &&& forall|k: int|
                0 <= k < r@.len() ==> match_record_ok(
                    t,
                    filepath@,
                    p.len() as int,
                    ps[k],
                    #[trigger] r@[k]@,
                )
            &&& forall|k: int, l: int|
                0 <= k < l < r@.len() ==> (#[trigger] r@[k])@.file_index_start + p.len() <= (
                #[trigger] r@[l])@.file_index_start
            &&& (forall|j: int| 0 <= j < p.len() ==> p[j] != NEWLINE) ==> forall|k: int|
                0 <= k < r@.len() ==> (#[trigger] r@[k]@).line_wf()
        }),
{
    let ghost t = contents.spec_bytes();
    let ghost pv = search_pattern.spec_bytes();
    if search_pattern.is_empty() {
        proof {
            assert(pv =~= Seq::<u8>::empty());
            assert(match_positions(t, pv, 0) =~= Seq::<int>::empty());
        }
        return Vec::new();
    }
    let bytes = contents.as_bytes_vec();
    let pat = search_pattern.as_bytes_vec();
    proof {
        assert(pv.len() > 0) by {
            if pv.len() == 0 {
                vstd::utf8::encode_utf8_decode_utf8(search_pattern@);
                assert(decode_utf8(pv) =~= Seq::<char>::empty());
            }
        }
    }
    if pat.len() > bytes.len() {
        proof {
            assert(match_positions(t, pv, 0) =~= Seq::<int>::empty());
        }
        return Vec::new();
    }
    let mut res: Vec<Match> = Vec::new();
    let ghost mut done: Seq<int> = Seq::empty();
    let mut i: usize = 0;
    proof {
        assert(match_positions(t, pv, 0) =~= done + match_positions(t, pv, 0));
    }
    while i <= bytes.len() - pat.len()
        invariant
            bytes@ == t,
            pat@ == pv,
            t == contents.spec_bytes(),
            valid_utf8(t),
            valid_utf8(pv),
            1 <= pv.len() <= t.len(),
            i <= t.len(),
            match_positions(t, pv, 0) == done + match_positions(t, pv, i as int),
            res@.len() == done.len(),
            forall|k: int|
                0 <= k < done.len() ==> match_record_ok(
                    t,
                    filepath@,
                    pv.len() as int,
                    done[k],
                    #[trigger] res@[k]@,
                ),
        decreases t.len() - i,
    {
        if is_match_at(&bytes, &pat, i) {
            proof {
                lemma_match_boundaries(t, pv, i as int);
                assert(match_positions(t, pv, i as int) =~= seq![i as int] + match_positions(
                    t,
                    pv,
                    i + pv.len(),
                ));
            }
            let m = build_match(contents, &bytes, i, pat.len(), filepath);
            res.push(m);
            proof {
                done = done + seq![i as int];
                assert(match_positions(t, pv, 0) =~= done + match_positions(t, pv, i + pv.len()));
            }
            i = i + pat.len();
        } else {
            proof {
                assert(match_positions(t, pv, i as int) == match_positions(t, pv, i + 1));
            }
            i = i + 1;
        }
    }
    proof {
        assert(match_positions(t, pv, i as int) =~= Seq::<int>::empty());
        assert(done =~= match_positions(t, pv, 0));
        lemma_locate_line_wf(t, pv, filepath@, res@);
        lemma_match_positions_props(t, pv, 0);
    }
    res
}

/// When the pattern contains no newline, an occurrence never crosses its
/// line, so the recorded character offsets both index into the line.
proof fn lemma_locate_line_wf(t: Seq<u8>, pv: Seq<u8>, path: Seq<char>, ms: Seq<Match>)
    requires
        valid_utf8(t),
        valid_utf8(pv),
        pv.len() >= 1,
        ms.len() == match_positions(t, pv, 0).len(),
        forall|k: int|
            0 <= k < ms.len() ==> match_record_ok(
                t,
                path,
                pv.len() as int,
                match_positions(t, pv, 0)[k],
                #[trigger] ms[k]@,
            ),
    ensures
        (forall|j: int| 0 <= j < pv.len() ==> pv[j] != NEWLINE) ==> forall|k: int|
            0 <= k < ms.len() ==> (#[trigger] ms[k]@).line_wf(),
{
    if forall|j: int| 0 <= j < pv.len() ==> pv[j] != NEWLINE {
        assert forall|k: int| 0 <= k < ms.len() implies (#[trigger] ms[k]@).line_wf() by {
            let i = match_positions(t, pv, 0)[k];
            lemma_match_positions_props(t, pv, 0);
            assert(match_at(t, pv, i));
            let ls = line_start(t, i);
            let le = line_end(t, i);
            lemma_line_start_props(t, i);
            lemma_line_end_props(t, i);
            lemma_line_boundaries(t, i);
            lemma_match_boundaries(t, pv, i);
            assert(le >= i + pv.len()) by {
                if le < i + pv.len() {
                    assert(t[le] == NEWLINE);
                    assert(t.subrange(i, i + pv.len())[le - i] == t[le]);
                    assert(pv[le - i] != NEWLINE);
                }
            }
            lemma_decode_concat_parts(t, ls, i + pv.len(), le);
        }
    }
}

} // verus!
