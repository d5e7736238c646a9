//! The replacer: splices replacements into file contents at the byte offsets
//! that located records carry, processing offsets in descending order so that
//! earlier offsets stay valid while later ones are rewritten.

use vstd::prelude::*;
use vstd::string::StrSliceExecFns;
use vstd::string::StringExecFns;
use vstd::string::StringSliceAdditionalSpecFns;
use vstd::utf8::encode_utf8;
use vstd::utf8::is_char_boundary;
use vstd::utf8::valid_utf8;

use crate::match_struct::Match;
use crate::match_struct::MatchView;
use crate::search_replace::locate;
use crate::text::lemma_boundary_suffix_transfer;
use crate::text::lemma_first_byte_not_continuation;
use crate::text::lemma_encode_utf8_concat;
use crate::text::lemma_match_boundaries;
use crate::text::lemma_match_positions_head;
use crate::text::lemma_match_positions_props;
use crate::text::lemma_replaced_head;
use crate::text::lemma_replaced_no_match;
use crate::text::match_at;
use crate::text::match_positions;
use crate::text::replaced;
use crate::text::replaced_from;
use crate::text::splice;

verus! {

broadcast use vstd::utf8::group_utf8_lib, crate::match_struct::lemma_match_view_bounds;

/// The records describe byte ranges that can be spliced out of `text`: each
/// range lies within the text on character boundaries, and the ranges are
/// pairwise disjoint in ascending order.
pub open spec fn splice_ops_wf(text: Seq<u8>, ms: Seq<Match>) -> bool {
    &&& forall|k: int|
        0 <= k < ms.len() ==> {
            let m = (#[trigger] ms[k])@;
            &&& m.file_index_start + m.match_length <= text.len()
            &&& is_char_boundary(text, m.file_index_start)
            &&& is_char_boundary(text, m.file_index_start + m.match_length)
        }
    &&& forall|k: int, l: int|
        0 <= k < l < ms.len() ==> (#[trigger] ms[k])@.file_index_start + ms[k]@.match_length <= (
        #[trigger] ms[l])@.file_index_start
}

/// The result of splicing every record's replacement into `text`, later
/// ranges first: the tail of the list is spliced into the text, then the
/// head record is spliced into that result, whose bytes below the head's
/// range the tail splices did not move.
pub open spec fn splice_all(text: Seq<u8>, ms: Seq<Match>) -> Seq<u8>
    decreases ms.len(),
{
    if ms.len() == 0 {
        text
    } else {
        splice(
            splice_all(text, ms.drop_first()),
            ms[0]@.file_index_start,
            ms[0]@.match_length,
            encode_utf8(ms[0]@.replacement),
        )
    }
}

/// Splicing at or above `p` keeps the first `p` bytes of the text, keeps the
/// result valid UTF-8, and keeps `p` a character boundary.
pub proof fn lemma_splice_all_prefix(text: Seq<u8>, ms: Seq<Match>, p: int)
    requires
        valid_utf8(text),
        splice_ops_wf(text, ms),
        0 <= p <= text.len(),
        is_char_boundary(text, p),
        forall|k: int| 0 <= k < ms.len() ==> p <= (#[trigger] ms[k])@.file_index_start,
    ensures
        splice_all(text, ms).len() >= p,
        splice_all(text, ms).subrange(0, p) == text.subrange(0, p),
        valid_utf8(splice_all(text, ms)),
        is_char_boundary(splice_all(text, ms), p),
    decreases ms.len(),
{
    if ms.len() == 0 {
    } else {
        let s0 = ms[0]@.file_index_start;
        let m0 = ms[0]@.match_length;
        let rep0 = encode_utf8(ms[0]@.replacement);
        let rest = ms.drop_first();
        assert(splice_ops_wf(text, rest)) by {
            assert(forall|k: int| 0 <= k < rest.len() ==> rest[k] == ms[k + 1]);
        }
        assert(forall|k: int| 0 <= k < rest.len() ==> s0 + m0 <= (#[trigger] rest[k])@.file_index_start)
            by {
            assert(forall|k: int| 0 <= k < rest.len() ==> rest[k] == ms[k + 1]);
        }
        assert(0 <= m0);
        lemma_splice_all_prefix(text, rest, s0 + m0);
        lemma_splice_all_prefix(text, rest, s0);
        let inner = splice_all(text, rest);
        let result = splice_all(text, ms);
        assert(result == splice(inner, s0, m0, rep0));

        let pre = inner.subrange(0, s0);
        let post = inner.subrange(s0 + m0, inner.len() as int);
        assert(result == pre + rep0 + post);
        assert(result.len() == s0 + rep0.len() + post.len());
        assert(result.len() >= p);
        assert(result.subrange(0, p) =~= text.subrange(0, p));

        assert(valid_utf8(result)) by {
            assert(valid_utf8(pre));
            assert(valid_utf8(post));
            assert(valid_utf8(rep0));
            assert(valid_utf8(pre + rep0));
            assert(pre + rep0 + post =~= (pre + rep0) + post);
        }

        assert(is_char_boundary(result, p)) by {
            if p == result.len() {
                assert(is_char_boundary(result, result.len() as int));
            } else if p < s0 {
                assert(result[p] == text[p]);
                assert(p < text.len());
                assert(is_char_boundary(text, p) <==> !vstd::utf8::is_continuation_byte(text[p]));
                assert(is_char_boundary(result, p) <==> !vstd::utf8::is_continuation_byte(
                    result[p],
                ));
            } else {
                // p == s0 and s0 < result.len(): the byte there starts the
                // replacement, or what follows the spliced-out range.
                if rep0.len() > 0 {
                    lemma_first_byte_not_continuation(rep0);
                    assert(result[p] == rep0[0]);
                } else {
                    assert(post.len() > 0);
                    assert(result[p] == post[0]);
                    assert(post[0] == inner[s0 + m0]);
                    assert(s0 + m0 < inner.len());
                    assert(is_char_boundary(inner, s0 + m0) <==> !vstd::utf8::is_continuation_byte(
                        inner[s0 + m0],
                    ));
                }
                assert(is_char_boundary(result, p) <==> !vstd::utf8::is_continuation_byte(
                    result[p],
                ));
            }
        }
    }
}

/// Splices every record's replacement into `contents`, processing the
/// records back to front, that is in descending byte-offset order: splicing
/// changes the length of everything after the spliced range, so offsets must
/// be consumed from the highest down.
pub fn apply_matches(contents: &str, matches: &Vec<Match>) -> (r: String)
    requires
        splice_ops_wf(contents.spec_bytes(), matches@),
    ensures
        encode_utf8(r@) == splice_all(contents.spec_bytes(), matches@),
{
    let ghost t = contents.spec_bytes();
    let mut cur: String = contents.to_owned();
    let mut j = matches.len();
    proof {
        assert(matches@.subrange(j as int, matches@.len() as int) =~= Seq::<Match>::empty());
        assert(encode_utf8(cur@) == t);
    }
    while j > 0
        invariant
            t == contents.spec_bytes(),
            valid_utf8(t),
            splice_ops_wf(t, matches@),
            j <= matches@.len(),
            encode_utf8(cur@) == splice_all(t, matches@.subrange(j as int, matches@.len() as int)),
        decreases j,
    {
        let ghost suffix = matches@.subrange(j as int, matches@.len() as int);
        let ghost cur0 = encode_utf8(cur@);
        let m = &matches[j - 1];
        let s = m.get_file_index_start();
        let mlen = m.get_match_length();
        proof {
            assert(forall|k: int|
                0 <= k < suffix.len() ==> suffix[k] == matches@[j + k]);
            assert(forall|k: int|
                0 <= k < suffix.len() ==> s + mlen <= (#[trigger] suffix[k])@.file_index_start);
            lemma_splice_all_prefix(t, suffix, s + mlen);
            lemma_splice_all_prefix(t, suffix, s as int);
            assert(is_char_boundary(cur0, s as int));
            assert(is_char_boundary(cur0, s + mlen));
            assert(cur0.len() >= s + mlen);
            lemma_boundary_suffix_transfer(cur0, s as int, mlen as int);
        }
        let (pre, rest) = cur.as_str().split_at(s);
        proof {
            assert(rest.spec_bytes() =~= cur0.subrange(s as int, cur0.len() as int));
        }
        let (_, post) = rest.split_at(mlen);
        let mut next: String = pre.to_owned();
        next.append(m.get_replacement());
        next.append(post);
        proof {
            lemma_encode_utf8_concat(pre@, m@.replacement);
            lemma_encode_utf8_concat(pre@ + m@.replacement, post@);
            assert((pre@ + m@.replacement) + post@ =~= next@);
            assert(encode_utf8(next@) == pre.spec_bytes() + encode_utf8(m@.replacement)
                + post.spec_bytes());
            assert(pre.spec_bytes() =~= cur0.subrange(0, s as int));
            assert(post.spec_bytes() =~= cur0.subrange(s + mlen, cur0.len() as int));
            assert(encode_utf8(next@) == splice(cur0, s as int, mlen as int, encode_utf8(
                m@.replacement,
            )));
            let prev = matches@.subrange(j - 1, matches@.len() as int);
            assert(prev.drop_first() =~= suffix);
            assert(prev[0] == matches@[j - 1]);
            assert(encode_utf8(next@) == splice_all(t, prev));
        }
        cur = next;
        j = j - 1;
    }
    proof {
        assert(matches@.subrange(0, matches@.len() as int) =~= matches@);
    }
    cur
}

/// Stamps every record with the replacement text that will be spliced in for
/// it; nothing else about the records changes.
pub fn stamp_replacement(matches: &mut Vec<Match>, replacement: &str)
    ensures
        final(matches)@.len() == old(matches)@.len(),
        forall|k: int|
            0 <= k < old(matches)@.len() ==> (#[trigger] final(matches)@[k])@ == (MatchView {
                replacement: replacement@,
                ..old(matches)@[k]@
            }),
{
    let n = matches.len();
    let mut k: usize = 0;
    while k < n
        invariant
            k <= n,
            n == matches@.len(),
            matches@.len() == old(matches)@.len(),
            forall|l: int|
                0 <= l < k ==> (#[trigger] matches@[l])@ == (MatchView {
                    replacement: replacement@,
                    ..old(matches)@[l]@
                }),
            forall|l: int| k <= l < n ==> matches@[l] == old(matches)@[l],
        decreases n - k,
    {
        matches[k].set_replacement(replacement.to_owned());
        k = k + 1;
    }
}

/// Splicing the located occurrences back to front produces exactly the text
/// in which the left-to-right scan's occurrences from `from` on are replaced:
/// descending-order splicing repairs the offset drift that each splice causes.
pub proof fn lemma_splice_all_replaces(
    t: Seq<u8>,
    pv: Seq<u8>,
    rep: Seq<char>,
    ms: Seq<Match>,
    from: int,
)
    requires
        pv.len() >= 1,
        0 <= from <= t.len(),
        ms.len() == match_positions(t, pv, from).len(),
        forall|k: int|
            0 <= k < ms.len() ==> {
                let m = (#[trigger] ms[k])@;
                &&& m.file_index_start == match_positions(t, pv, from)[k]
                &&& m.match_length == pv.len()
                &&& m.replacement == rep
            },
    ensures
        splice_all(t, ms) == t.subrange(0, from) + replaced_from(t, pv, encode_utf8(rep), from),
    decreases ms.len(),
{
    let repb = encode_utf8(rep);
    if ms.len() == 0 {
        lemma_replaced_no_match(t, pv, repb, from);
        assert(t.subrange(0, from) + t.subrange(from, t.len() as int) =~= t);
    } else {
        let q = match_positions(t, pv, from)[0];
        lemma_match_positions_head(t, pv, from);
        lemma_replaced_head(t, pv, repb, from);
        assert(match_at(t, pv, q));
        assert(q + pv.len() <= t.len());
        let rest = ms.drop_first();
        assert(rest.len() == match_positions(t, pv, q + pv.len()).len());
        assert(forall|k: int| 0 <= k < rest.len() ==> rest[k] == ms[k + 1]);
        assert(forall|k: int|
            0 <= k < rest.len() ==> match_positions(t, pv, from)[k + 1] == #[trigger] match_positions(
                t,
                pv,
                q + pv.len(),
            )[k]);
        lemma_splice_all_replaces(t, pv, rep, rest, q + pv.len());
        let inner = splice_all(t, rest);
        let tail = replaced_from(t, pv, repb, q + pv.len());
        assert(inner == t.subrange(0, q + pv.len()) + tail);
        assert(ms[0]@.file_index_start == q);
        assert(splice_all(t, ms) == splice(inner, q, pv.len() as int, repb));
        assert(inner.subrange(0, q) =~= t.subrange(0, q));
        assert(inner.subrange(q + pv.len(), inner.len() as int) =~= tail);
        assert(splice_all(t, ms) == t.subrange(0, q) + repb + tail);
        assert(t.subrange(0, from) + replaced_from(t, pv, repb, from) =~= t.subrange(0, q) + repb
            + tail);
    }
}

/// Replaces every non-overlapping occurrence of `search_pattern` in
/// `contents` by `replacement`, scanning left to right: it locates the
/// occurrences, stamps them with the replacement, and splices back to front.
/// An empty pattern leaves the contents unchanged.
pub fn replace_in_content(contents: &str, search_pattern: &str, replacement: &str) -> (r: String)
    ensures
        encode_utf8(r@) == replaced(
            contents.spec_bytes(),
            search_pattern.spec_bytes(),
            replacement.spec_bytes(),
        ),
{
    let ghost t = contents.spec_bytes();
    let ghost pv = search_pattern.spec_bytes();
    let ghost repb = replacement.spec_bytes();
    let mut ms = locate(contents, search_pattern, "");
    stamp_replacement(&mut ms, replacement);
    proof {
        lemma_match_positions_props(t, pv, 0);
        assert forall|k: int|
            0 <= k < ms@.len() implies {
            let m = (#[trigger] ms@[k])@;
            &&& m.file_index_start + m.match_length <= t.len()
            &&& is_char_boundary(t, m.file_index_start)
            &&& is_char_boundary(t, m.file_index_start + m.match_length)
            &&& m.file_index_start == match_positions(t, pv, 0)[k]
            &&& m.match_length == pv.len()
            &&& m.replacement == replacement@
        } by {
            let i = match_positions(t, pv, 0)[k];
            assert(match_at(t, pv, i));
            lemma_match_boundaries(t, pv, i);
        }
        assert(splice_ops_wf(t, ms@)) by {
            assert forall|k: int, l: int|
                0 <= k < l < ms@.len() implies (#[trigger] ms@[k])@.file_index_start
                + ms@[k]@.match_length <= (#[trigger] ms@[l])@.file_index_start by {
                assert(match_positions(t, pv, 0)[k] + pv.len() <= match_positions(t, pv, 0)[l]);
            }
        }
    }
    let out = apply_matches(contents, &ms);
    proof {
        if pv.len() == 0 {
            assert(ms@.len() == 0);
            assert(splice_all(t, ms@) == t);
            assert(replaced_from(t, pv, repb, 0) =~= t);
        } else {
            lemma_splice_all_replaces(t, pv, replacement@, ms@, 0);
            assert(t.subrange(0, 0) + replaced_from(t, pv, repb, 0) =~= replaced_from(
                t,
                pv,
                repb,
                0,
            ));
        }
    }
    out
}

/// The records of `ms` whose filepath is `path`, in their original order.
pub open spec fn matches_for(ms: Seq<Match>, path: Seq<char>) -> Seq<Match>
    decreases ms.len(),
{
    if ms.len() == 0 {
        seq![]
    } else if ms.last()@.filepath == path {
        matches_for(ms.drop_last(), path) + seq![ms.last()]
    } else {
        matches_for(ms.drop_last(), path)
    }
}

/// Some group carries `path` as its key.
pub open spec fn has_group(groups: Seq<(String, Vec<Match>)>, path: Seq<char>) -> bool {
    exists|g: int| 0 <= g < groups.len() && (#[trigger] groups[g]).0@ == path
}

proof fn lemma_matches_for_push(ms: Seq<Match>, m: Match, path: Seq<char>)
    ensures
        matches_for(ms.push(m), path) == if m@.filepath == path {
            matches_for(ms, path).push(m)
        } else {
            matches_for(ms, path)
        },
{
    assert(ms.push(m).drop_last() =~= ms);
    assert(ms.push(m).last() == m);
    if m@.filepath == path {
        assert(matches_for(ms, path) + seq![m] =~= matches_for(ms, path).push(m));
    }
}

proof fn lemma_matches_for_absent(ms: Seq<Match>, path: Seq<char>)
    requires
        forall|k: int| 0 <= k < ms.len() ==> (#[trigger] ms[k])@.filepath != path,
    ensures
        matches_for(ms, path) == Seq::<Match>::empty(),
    decreases ms.len(),
{
    if ms.len() == 0 {
        assert(matches_for(ms, path) =~= Seq::<Match>::empty());
    } else {
        assert(ms.last() == ms[ms.len() - 1]);
        assert(forall|k: int| 0 <= k < ms.len() - 1 ==> ms.drop_last()[k] == #[trigger] ms[k]);
        lemma_matches_for_absent(ms.drop_last(), path);
    }
}

/// Finds the group keyed by `path`, if any.
fn find_group(groups: &Vec<(String, Vec<Match>)>, path: &String) -> (r: Option<usize>)
    ensures
        match r {
            Some(g) => g < groups@.len() && groups@[g as int].0@ == path@,
            None => forall|g: int| 0 <= g < groups@.len() ==> (#[trigger] groups@[g]).0@ != path@,
        },
{
    let mut gi: usize = 0;
    while gi < groups.len()
        invariant
            gi <= groups@.len(),
            forall|g: int| 0 <= g < gi ==> (#[trigger] groups@[g]).0@ != path@,
        decreases groups@.len() - gi,
    {
        if groups[gi].0 == *path {
            return Some(gi);
        }
        gi = gi + 1;
    }
    None
}

/// Groups records by the file they were located in: one group per distinct
/// filepath, carrying exactly that file's records in their original order,
/// so that an offset computed in one file is never spliced into another.
pub fn group_by_file(matches: Vec<Match>) -> (groups: Vec<(String, Vec<Match>)>)
    ensures
        forall|g: int|
            0 <= g < groups@.len() ==> (#[trigger] groups@[g]).1@ == matches_for(
                matches@,
                groups@[g].0@,
            ),
        forall|g: int, h: int|
            0 <= g < h < groups@.len() ==> (#[trigger] groups@[g]).0@ != (
            #[trigger] groups@[h]).0@,
        forall|k: int|
            0 <= k < matches@.len() ==> has_group(groups@, (#[trigger] matches@[k])@.filepath),
{
    let ghost all = matches@;
    let mut rest = matches;
    let mut groups: Vec<(String, Vec<Match>)> = Vec::new();
    let ghost mut done: Seq<Match> = Seq::empty();
    proof {
        assert(all =~= done + rest@);
    }
    while rest.len() > 0
        invariant
            all == done + rest@,
            forall|g: int|
                0 <= g < groups@.len() ==> (#[trigger] groups@[g]).1@ == matches_for(
                    done,
                    groups@[g].0@,
                ),
            forall|g: int, h: int|
                0 <= g < h < groups@.len() ==> (#[trigger] groups@[g]).0@ != (
                #[trigger] groups@[h]).0@,
            forall|k: int| 0 <= k < done.len() ==> has_group(groups@, (#[trigger] done[k])@.filepath),
        decreases rest@.len(),
    {
        let ghost groups0 = groups@;
        let m = rest.remove(0);
        let path: String = m.get_filepath().to_owned();
        proof {
            assert(all =~= done.push(m) + rest@);
        }
        match find_group(&groups, &path) {
            Some(g) => {
                let mut pair = groups.remove(g);
                pair.1.push(m);
                groups.insert(g, pair);
                proof {
                    assert(groups@ =~= groups0.update(g as int, pair));
                    assert forall|gg: int| 0 <= gg < groups@.len() implies (
                    #[trigger] groups@[gg]).1@ == matches_for(done.push(m), groups@[gg].0@) by {
                        lemma_matches_for_push(done, m, groups@[gg].0@);
                        if gg != g {
                            assert(groups@[gg] == groups0[gg]);
                            assert(groups0[gg].0@ != path@);
                        }
                    }
                    assert forall|k: int| 0 <= k < done.push(m).len() implies has_group(
                        groups@,
                        (#[trigger] done.push(m)[k])@.filepath,
                    ) by {
                        if k < done.len() {
                            let gg = choose|gg: int|
                                0 <= gg < groups0.len() && (#[trigger] groups0[gg]).0@
                                    == done[k]@.filepath;
                            assert(groups@[gg].0@ == groups0[gg].0@);
                        } else {
                            assert(groups@[g as int].0@ == m@.filepath);
                        }
                    }
                }
            },
            None => {
                let mut fresh: Vec<Match> = Vec::new();
                fresh.push(m);
                groups.push((path, fresh));
                proof {
                    let glen = groups0.len() as int;
                    assert(groups@ =~= groups0.push((path, fresh)));
                    assert forall|gg: int| 0 <= gg < groups@.len() implies (
                    #[trigger] groups@[gg]).1@ == matches_for(done.push(m), groups@[gg].0@) by {
                        lemma_matches_for_push(done, m, groups@[gg].0@);
                        if gg < glen {
                            assert(groups@[gg] == groups0[gg]);
                            assert(groups0[gg].0@ != path@);
                        } else {
                            assert(groups@[gg].0@ == path@);
                            assert forall|k: int| 0 <= k < done.len() implies (
                            #[trigger] done[k])@.filepath != path@ by {
                                if done[k]@.filepath == path@ {
                                    let g2 = choose|g2: int|
                                        0 <= g2 < groups0.len() && (#[trigger] groups0[g2]).0@
                                            == done[k]@.filepath;
                                }
                            }
                            lemma_matches_for_absent(done, path@);
                            assert(matches_for(done.push(m), path@) =~= seq![m]);
                            assert(groups@[gg].1@ =~= seq![m]);
                        }
                    }
                    assert forall|k: int| 0 <= k < done.push(m).len() implies has_group(
                        groups@,
                        (#[trigger] done.push(m)[k])@.filepath,
                    ) by {
                        if k < done.len() {
                            let gg = choose|gg: int|
                                0 <= gg < groups0.len() && (#[trigger] groups0[gg]).0@
                                    == done[k]@.filepath;
                            assert(groups@[gg].0@ == groups0[gg].0@);
                        } else {
                            assert(groups@[glen].0@ == m@.filepath);
                        }
                    }
                }
            },
        }
        proof {
            done = done.push(m);
        }
    }
    proof {
        assert(done =~= all);
    }
    groups
}

/// Checks that the records can be spliced into these contents: every byte
/// range in bounds on character boundaries, ranges pairwise disjoint and
/// ascending. A fresh read of a file may no longer match the text the
/// records were located in, so splicing is guarded by this check.
pub fn matches_applicable(contents: &str, matches: &Vec<Match>) -> (b: bool)
    ensures
        b == splice_ops_wf(contents.spec_bytes(), matches@),
{
    let ghost t = contents.spec_bytes();
    let n = contents.as_bytes_vec().len();
    let mut k: usize = 0;
    let mut prev_end: usize = 0;
    while k < matches.len()
        invariant
            t == contents.spec_bytes(),
            n == t.len(),
            k <= matches@.len(),
            prev_end <= n,
            k == 0 ==> prev_end == 0,
            k > 0 ==> prev_end == matches@[k - 1]@.file_index_start + matches@[k
                - 1]@.match_length,
            forall|l: int|
                0 <= l < k ==> {
                    let m = (#[trigger] matches@[l])@;
                    &&& m.file_index_start + m.match_length <= t.len()
                    &&& is_char_boundary(t, m.file_index_start)
                    &&& is_char_boundary(t, m.file_index_start + m.match_length)
                },
            forall|l: int, l2: int|
                0 <= l < l2 < k ==> (#[trigger] matches@[l])@.file_index_start
                    + matches@[l]@.match_length <= (#[trigger] matches@[l2])@.file_index_start,
            forall|l: int|
                0 <= l < k ==> (#[trigger] matches@[l])@.file_index_start
                    + matches@[l]@.match_length <= prev_end,
        decreases matches@.len() - k,
    {
        let m = &matches[k];
        let s = m.get_file_index_start();
        let mlen = m.get_match_length();
        if mlen > n || s > n - mlen {
            return false;
        }
        if s < prev_end {
            proof {
                assert(k > 0);
                assert(matches@[k - 1]@.file_index_start + matches@[k - 1]@.match_length
                    > matches@[k as int]@.file_index_start);
                assert(!splice_ops_wf(t, matches@));
            }
            return false;
        }
        if !contents.is_char_boundary(s) {
            return false;
        }
        if !contents.is_char_boundary(s + mlen) {
            return false;
        }
        prev_end = s + mlen;
        k = k + 1;
    }
    true
}

} // verus!
