//! The pass over a whole trace file: its lines, their classes, the counts and frames.
use vstd::prelude::*;
use vstd::pervasive::VecAdditionalExecFns;

use crate::classify::{CANFrame, lemma_candidate_fields, FrameModel, LineClass, LineModel, classify_span, classify_spec};
use crate::decode::MAX_IDENTIFIER;
use crate::text::chars_of;

verus! {

/// The pieces of `s` between `\n` characters, the last one possibly empty.
pub open spec fn line_pieces(s: Seq<char>) -> Seq<Seq<char>>
    decreases s.len(),
{
    if s.len() == 0 {
        seq![seq![]]
    } else {
        let p = line_pieces(s.drop_last());
        if s.last() == '\n' {
            p.push(seq![])
        } else {
            p.update(p.len() - 1, p.last().push(s.last()))
        }
    }
}

/// The physical lines of `s`, as `str::lines` gives them up to a `\r` before the
/// `\n`, which trimming removes: a last line without `\n` counts, an empty
/// piece after the last `\n` does not.
pub open spec fn lines(s: Seq<char>) -> Seq<Seq<char>> {
    let p = line_pieces(s);
    if p.last().len() == 0 {
        p.drop_last()
    } else {
        p
    }
}

/// The classes of `ls`, numbered from 1.
pub open spec fn classify_all(ls: Seq<Seq<char>>) -> Seq<LineModel> {
    Seq::new(ls.len(), |k: int| classify_spec(ls[k], (k + 1) as nat))
}

pub open spec fn count_ignored(cs: Seq<LineModel>) -> nat
    decreases cs.len(),
{
    if cs.len() == 0 {
        0
    } else {
        count_ignored(cs.drop_last()) + if cs.last() is Ignored {
            1nat
        } else {
            0nat
        }
    }
}

pub open spec fn count_invalid(cs: Seq<LineModel>) -> nat
    decreases cs.len(),
{
    if cs.len() == 0 {
        0
    } else {
        count_invalid(cs.drop_last()) + if cs.last() is Invalid {
            1nat
        } else {
            0nat
        }
    }
}

/// The frames of the candidate lines among `cs`, in order.
pub open spec fn candidates(cs: Seq<LineModel>) -> Seq<FrameModel>
    decreases cs.len(),
{
    if cs.len() == 0 {
        seq![]
    } else {
        match cs.last() {
            LineModel::Candidate(f) => candidates(cs.drop_last()).push(f),
            _ => candidates(cs.drop_last()),
        }
    }
}

pub open spec fn frame_views(fs: Seq<CANFrame>) -> Seq<FrameModel> {
    fs.map_values(|f: CANFrame| f@)
}

/// Each class is counted once: ignored, invalid or candidate.
pub proof fn lemma_classes_counted(cs: Seq<LineModel>)
    ensures
        count_ignored(cs) + count_invalid(cs) + candidates(cs).len() == cs.len(),
    decreases cs.len(),
{
    if cs.len() > 0 {
        lemma_classes_counted(cs.drop_last());
    }
}

/// The result of classifying every line of a file: the ignored and invalid lines
/// counted, and the frames of the other lines, whose timestamps are still unread.
pub struct FileScan {
    pub ignored: usize,
    pub invalid: usize,
    pub candidates: Vec<CANFrame>,
}

/// Classifies every line of `contents`, in order.
pub fn parse_file(contents: &str) -> (r: FileScan)
    ensures
        r.ignored == count_ignored(classify_all(lines(contents@))),
        r.invalid == count_invalid(classify_all(lines(contents@))),
        frame_views(r.candidates@) == candidates(classify_all(lines(contents@))),
        r.ignored + r.invalid + r.candidates@.len() == lines(contents@).len(),
        lines(contents@).len() <= contents@.len(),
{
    let cs = chars_of(contents);
    let n = cs.len();
    let mut ignored: usize = 0;
    let mut invalid: usize = 0;
    let mut frames: Vec<CANFrame> = Vec::new();
    let mut start: usize = 0;
    let mut line_no: usize = 0;
    let ghost mut done: Seq<Seq<char>> = seq![];
    let mut i: usize = 0;
    proof {
        assert(cs@.subrange(0, 0) =~= Seq::<char>::empty());
        assert(line_pieces(cs@.subrange(0, 0)) =~= done.push(cs@.subrange(0, 0)));
    }
    while i < n
        invariant
            n == cs@.len(),
            start <= i <= n,
            line_no == done.len(),
            done.len() <= start,
            line_pieces(cs@.subrange(0, i as int)) == done.push(cs@.subrange(start as int, i as int)),
            ignored == count_ignored(classify_all(done)),
            invalid == count_invalid(classify_all(done)),
            frame_views(frames@) == candidates(classify_all(done)),
        decreases n - i,
    {
        let ghost prev = cs@.subrange(0, i as int);
        assert(cs@.subrange(0, i + 1).drop_last() =~= prev);
        if cs[i] == '\n' {
            let ghost line = cs@.subrange(start as int, i as int);
            proof {
                lemma_classes_counted(classify_all(done));
            }
            let class = classify_span(&cs, start, i, line_no + 1);
            proof {
                assert(classify_all(done.push(line)) =~= classify_all(done).push(class@));
                assert(classify_all(done.push(line)).drop_last() =~= classify_all(done));
            }
            match class {
                LineClass::Ignored => {
                    ignored = ignored + 1;
                },
                LineClass::Invalid => {
                    invalid = invalid + 1;
                },
                LineClass::Candidate(f) => {
                    let ghost before = frames@;
                    let ghost fv = f@;
                    frames.push(f);
                    assert(frame_views(frames@) =~= frame_views(before).push(fv));
                },
            }
            proof {
                done = done.push(line);
                assert(cs@.subrange(i + 1, i + 1) =~= Seq::<char>::empty());
            }
            line_no = line_no + 1;
            start = i + 1;
        } else {
            proof {
                assert(cs@.subrange(start as int, i + 1) =~= cs@.subrange(start as int, i as int).push(cs@[i as int]));
            }
        }
        i = i + 1;
    }
    assert(cs@.subrange(0, n as int) =~= contents@);
    if start < n {
        let ghost line = cs@.subrange(start as int, n as int);
        proof {
            lemma_classes_counted(classify_all(done));
        }
        let class = classify_span(&cs, start, n, line_no + 1);
        proof {
            assert(classify_all(done.push(line)) =~= classify_all(done).push(class@));
            assert(classify_all(done.push(line)).drop_last() =~= classify_all(done));
        }
        match class {
            LineClass::Ignored => {
                ignored = ignored + 1;
            },
            LineClass::Invalid => {
                invalid = invalid + 1;
            },
            LineClass::Candidate(f) => {
                let ghost before = frames@;
                let ghost fv = f@;
                frames.push(f);
                assert(frame_views(frames@) =~= frame_views(before).push(fv));
            },
        }
        proof {
            assert(lines(contents@) == done.push(line));
            lemma_classes_counted(classify_all(lines(contents@)));
        }
    } else {
        assert(lines(contents@) =~= done);
        proof {
            lemma_classes_counted(classify_all(lines(contents@)));
        }
    }
    FileScan { ignored, invalid, candidates: frames }
}

/// The final tally of a file.
pub struct LineCounts {
    pub valid: usize,
    pub invalid: usize,
    pub ignored: usize,
}

/// How many of `ok` are `true`.
pub open spec fn count_true(ok: Seq<bool>) -> nat
    decreases ok.len(),
{
    if ok.len() == 0 {
        0
    } else {
        count_true(ok.drop_last()) + if ok.last() {
            1nat
        } else {
            0nat
        }
    }
}

/// The frames of `fs` whose entry in `ok` is `true`, in order.
pub open spec fn keep_marked(fs: Seq<FrameModel>, ok: Seq<bool>) -> Seq<FrameModel>
    decreases fs.len(),
{
    if fs.len() == 0 {
        seq![]
    } else if ok.last() {
        keep_marked(fs.drop_last(), ok.drop_last()).push(fs.last())
    } else {
        keep_marked(fs.drop_last(), ok.drop_last())
    }
}

proof fn lemma_count_true_bound(ok: Seq<bool>)
    ensures
        count_true(ok) <= ok.len(),
    decreases ok.len(),
{
    if ok.len() > 0 {
        lemma_count_true_bound(ok.drop_last());
    }
}

/// Settles the candidate lines of `scan`: the `k`-th candidate is valid, and its
/// frame appended to `frames`, exactly when `timestamp_finite[k]` holds, which
/// says whether its timestamp text reads as a finite number; otherwise it is invalid.
pub fn finish_scan(scan: FileScan, timestamp_finite: &Vec<bool>, frames: &mut Vec<CANFrame>) -> (r:
    LineCounts)
    requires
        timestamp_finite@.len() == scan.candidates@.len(),
        scan.ignored + scan.invalid + scan.candidates@.len() <= usize::MAX,
    ensures
        r.ignored == scan.ignored,
        r.valid == count_true(timestamp_finite@),
        r.invalid == scan.invalid + (scan.candidates@.len() - count_true(timestamp_finite@)),
        frame_views(final(frames)@) == frame_views(old(frames)@) + keep_marked(
            frame_views(scan.candidates@),
            timestamp_finite@,
        ),
{
    let FileScan { ignored, invalid, mut candidates } = scan;
    let ghost cseq = candidates@;
    let ghost ok = timestamp_finite@;
    let n = candidates.len();
    let mut valid: usize = 0;
    let mut bad: usize = invalid;
    let mut k: usize = 0;
    proof {
        assert(frame_views(cseq).subrange(0, 0) =~= Seq::<FrameModel>::empty());
        assert(ok.subrange(0, 0) =~= Seq::<bool>::empty());
        assert(frame_views(frames@) + seq![] =~= frame_views(frames@));
    }
    while k < n
        invariant
            k <= n,
            n == cseq.len(),
            candidates@.len() == n,
            forall|j: int| k <= j < n ==> candidates@[j] == cseq[j],
            ok == timestamp_finite@,
            ok.len() == n,
            ignored + invalid + n <= usize::MAX,
            valid == count_true(ok.subrange(0, k as int)),
            valid <= k,
            bad == invalid + (k - valid),
            frame_views(frames@) == frame_views(old(frames)@) + keep_marked(
                frame_views(cseq).subrange(0, k as int),
                ok.subrange(0, k as int),
            ),
        decreases n - k,
    {
        proof {
            assert(ok.subrange(0, k + 1).drop_last() =~= ok.subrange(0, k as int));
            assert(frame_views(cseq).subrange(0, k + 1).drop_last() =~= frame_views(
                cseq,
            ).subrange(0, k as int));
        }
        let mut f = CANFrame {
            timestamp: String::new(),
            iface: String::new(),
            id: 0,
            data: Vec::new(),
            raw: String::new(),
            line_no: 0,
        };
        candidates.set_and_swap(k, &mut f);
        let ghost before = frames@;
        if timestamp_finite[k] {
            frames.push(f);
            valid = valid + 1;
            assert(frame_views(frames@) =~= frame_views(before).push(cseq[k as int]@));
        } else {
            bad = bad + 1;
        }
        k = k + 1;
    }
    assert(ok.subrange(0, n as int) =~= ok);
    assert(frame_views(cseq).subrange(0, n as int) =~= frame_views(cseq));
    LineCounts { valid, invalid: bad, ignored }
}

/// Every physical line of a file is counted exactly once, as valid, invalid or
/// ignored, whatever the timestamps of its candidate lines turn out to be.
pub proof fn lemma_every_line_counted(contents: Seq<char>, timestamp_finite: Seq<bool>)
    requires
        timestamp_finite.len() == candidates(classify_all(lines(contents))).len(),
    ensures
        ({
            let cs = classify_all(lines(contents));
            let valid = count_true(timestamp_finite);
            let invalid = count_invalid(cs) + (candidates(cs).len() - valid);
            let ignored = count_ignored(cs);
            valid + invalid + ignored == lines(contents).len()
        }),
{
    lemma_classes_counted(classify_all(lines(contents)));
    lemma_count_true_bound(timestamp_finite);
}

/// Every frame that classification produces from the lines `ls` carries an
/// identifier of at most 29 bits, at most eight payload bytes, and the number of
/// its line; the frames come in strictly increasing line order.
pub proof fn lemma_frames_ordered(ls: Seq<Seq<char>>)
    ensures
        forall|k: int|
            0 <= k < candidates(classify_all(ls)).len() ==> {
                let f = #[trigger] candidates(classify_all(ls))[k];
                &&& f.id <= MAX_IDENTIFIER
                &&& f.data.len() <= 8
                &&& 1 <= f.line_no <= ls.len()
            },
        forall|j: int, k: int|
            0 <= j < k < candidates(classify_all(ls)).len() ==> candidates(classify_all(ls))[j].line_no
                < candidates(classify_all(ls))[k].line_no,
    decreases ls.len(),
{
    if ls.len() > 0 {
        let prev = ls.drop_last();
        lemma_frames_ordered(prev);
        let c = classify_all(ls);
        let pc = candidates(classify_all(prev));
        assert(c.drop_last() =~= classify_all(prev));
        lemma_candidate_fields(ls.last(), ls.len());
        assert(c.last() == classify_spec(ls.last(), ls.len()));
        match c.last() {
            LineModel::Candidate(f) => {
                assert(candidates(c) == pc.push(f));
                assert forall|k: int| 0 <= k < pc.len() implies (#[trigger] candidates(c)[k]) == pc[k] by {}
            },
            _ => {
                assert(candidates(c) == pc);
            },
        }
    }
}

} // verus!
