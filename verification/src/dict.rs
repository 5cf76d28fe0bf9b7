//! Dictionaries for zstd, trained from the heads of the files to be packed.

use vstd::prelude::*;
use crate::entry::{SourceEntry, SourceKind, SourceView, source_views};

verus! {

/// The most sample bytes that are gathered.
pub const DICT_SAMPLES_CAP: usize = 16_777_216;

/// The most bytes that one file gives.
pub const DICT_SAMPLE_PER_FILE: usize = 262_144;

/// The size of a dictionary for a corpus of ordinary size.
pub const DICT_TARGET: usize = 112_640;

/// The fewest sample bytes from which a dictionary is trained.
pub const DICT_MIN_SAMPLES: usize = 1_048_576;

/// The fewest samples from which a dictionary is trained.
pub const DICT_MIN_COUNT: usize = 7;

/// The sizes at which dictionaries grow.
pub open spec fn dict_target(total_raw: int) -> int {
    if total_raw < 67_108_864 {
        65_536
    } else if total_raw < 536_870_912 {
        DICT_TARGET as int
    } else if total_raw < 2_147_483_648 {
        196_608
    } else {
        262_144
    }
}

/// The size of a dictionary for a corpus of `total_raw` bytes.
pub fn adaptive_dict_target(total_raw: u64) -> (n: usize)
    ensures
        n == dict_target(total_raw as int),
{
    if total_raw < 67_108_864 {
        65_536
    } else if total_raw < 536_870_912 {
        DICT_TARGET
    } else if total_raw < 2_147_483_648 {
        196_608
    } else {
        262_144
    }
}

/// What a file gives as a sample after `total` bytes were gathered: its head,
/// up to the limit of a file and to what is left of the cap.
pub open spec fn sample_of(e: SourceView, total: int) -> Seq<u8> {
    if e.kind != SourceKind::File || e.size == 0 {
        Seq::empty()
    } else {
        let left = if DICT_SAMPLES_CAP - total < DICT_SAMPLE_PER_FILE {
            DICT_SAMPLES_CAP - total
        } else {
            DICT_SAMPLE_PER_FILE as int
        };
        if e.data.len() < left {
            e.data
        } else {
            e.data.take(left)
        }
    }
}

/// The samples of the entries from `i` on. Entries without a sample are passed
/// over, and none is taken once the cap is reached.
pub open spec fn samples_from(es: Seq<SourceView>, i: int, total: int) -> Seq<Seq<u8>>
    decreases es.len() - i,
{
    if i >= es.len() || total >= DICT_SAMPLES_CAP {
        Seq::empty()
    } else {
        let s = sample_of(es[i], total);
        if s.len() == 0 {
            samples_from(es, i + 1, total)
        } else {
            seq![s] + samples_from(es, i + 1, total + s.len())
        }
    }
}

/// The bytes of several samples.
pub open spec fn sample_views(v: Seq<Vec<u8>>) -> Seq<Seq<u8>> {
    Seq::new(v.len(), |k: int| v[k]@)
}

/// How many bytes several samples have.
pub open spec fn sample_bytes(s: Seq<Seq<u8>>) -> int
    decreases s.len(),
{
    if s.len() == 0 {
        0
    } else {
        sample_bytes(s.drop_last()) + s.last().len()
    }
}

/// Gathers samples from the heads of the files.
pub fn gather_samples(entries: &[SourceEntry]) -> (r: Vec<Vec<u8>>)
    ensures
        sample_views(r@) == samples_from(source_views(entries@), 0, 0),
        sample_bytes(sample_views(r@)) <= DICT_SAMPLES_CAP,
{
    let ghost es = source_views(entries@);
    let mut out: Vec<Vec<u8>> = Vec::new();
    let mut total: usize = 0;
    let mut i: usize = 0;
    assert(sample_views(out@) + samples_from(es, 0, 0) =~= samples_from(es, 0, 0));
    while i < entries.len() && total < DICT_SAMPLES_CAP
        invariant
            es == source_views(entries@),
            i <= entries@.len(),
            total <= DICT_SAMPLES_CAP,
            total == sample_bytes(sample_views(out@)),
            sample_views(out@) + samples_from(es, i as int, total as int) == samples_from(es, 0, 0),
        decreases entries@.len() - i,
    {
        let e = &entries[i];
        assert(es[i as int] == e@);
        let is_file: bool = match e.kind {
            SourceKind::File => true,
            _ => false,
        };
        if is_file && e.size > 0 && e.data.len() > 0 {
            let left: usize = if DICT_SAMPLES_CAP - total < DICT_SAMPLE_PER_FILE {
                DICT_SAMPLES_CAP - total
            } else {
                DICT_SAMPLE_PER_FILE
            };
            let want: usize = if e.data.len() < left {
                e.data.len()
            } else {
                left
            };
            let ghost before = sample_views(out@);
            let ghost s = sample_of(es[i as int], total as int);
            let mut sample: Vec<u8> = Vec::new();
            crate::wire::write_bytes(
                &mut sample,
                vstd::slice::slice_subrange(e.data.as_slice(), 0, want),
            );
            assert(sample@ =~= s);
            out.push(sample);
            proof {
                assert(sample_views(out@) =~= before.push(s));
                assert(sample_views(out@).drop_last() =~= before);
                let rest = samples_from(es, i + 1, total + s.len());
                assert(before + (seq![s] + rest) =~= before.push(s) + rest);
            }
            total = total + want;
        }
        i = i + 1;
    }
    proof {
        assert(samples_from(es, i as int, total as int) =~= Seq::empty());
        assert(sample_views(out@) + Seq::<Seq<u8>>::empty() =~= sample_views(out@));
    }
    out
}

/// Training from some samples, in a buffer with room for at least `target`
/// bytes, may come to `trained`: to a dictionary, or to none where it fails.
pub uninterp spec fn training_outcome(
    samples: Seq<Seq<u8>>,
    target: usize,
    trained: Option<Seq<u8>>,
) -> bool;

/// The dictionary of a training, or nothing where it failed.
pub open spec fn trained_bytes(res: Result<Vec<u8>, std::io::Error>) -> Option<Seq<u8>> {
    match res {
        Ok(d) => Some(d@),
        Err(_) => None,
    }
}

/// Calls `zstd::dict::from_samples`. The result is one that training from these
/// samples may come to. It is not said which one: the buffer may have more room
/// than `target`, the dictionary depends on how much it has, and training fails
/// on samples it cannot use and for want of memory.
#[verifier::external_body]
pub(crate) fn dictionary_from(samples: &[Vec<u8>], target: usize) -> (res: Result<
    Vec<u8>,
    std::io::Error,
>)
    requires
        sample_bytes(sample_views(samples@)) <= isize::MAX,
        target <= isize::MAX,
    ensures
        training_outcome(sample_views(samples@), target, trained_bytes(res)),
{
    zstd::dict::from_samples(samples, target)
}

/// Whether there is enough to train from.
pub open spec fn enough_samples(s: Seq<Seq<u8>>) -> bool {
    sample_bytes(s) >= DICT_MIN_SAMPLES && s.len() >= DICT_MIN_COUNT
}

proof fn lemma_sample_bytes_prefix(s: Seq<Seq<u8>>, i: int)
    requires
        0 <= i <= s.len(),
    ensures
        0 <= sample_bytes(s.take(i)) <= sample_bytes(s),
    decreases s.len() - i,
{
    if i < s.len() {
        lemma_sample_bytes_prefix(s, i + 1);
        assert(s.take(i + 1).drop_last() =~= s.take(i));
        lemma_sample_bytes_positive(s.take(i));
    } else {
        assert(s.take(i) =~= s);
        lemma_sample_bytes_positive(s);
    }
}

proof fn lemma_sample_bytes_positive(s: Seq<Seq<u8>>)
    ensures
        0 <= sample_bytes(s),
    decreases s.len(),
{
    if s.len() > 0 {
        lemma_sample_bytes_positive(s.drop_last());
    }
}

/// Whether there is enough to train from.
pub fn has_enough_samples(samples: &[Vec<u8>]) -> (r: bool)
    ensures
        r == enough_samples(sample_views(samples@)),
{
    let ghost s = sample_views(samples@);
    if samples.len() < DICT_MIN_COUNT {
        return false;
    }
    let mut total: usize = 0;
    let mut i: usize = 0;
    assert(s.take(0) =~= Seq::empty());
    while i < samples.len()
        invariant
            s == sample_views(samples@),
            s.len() >= DICT_MIN_COUNT,
            i <= samples@.len(),
            total == sample_bytes(s.take(i as int)),
            total < DICT_MIN_SAMPLES,
        decreases samples@.len() - i,
    {
        proof {
            assert(s.take(i + 1).drop_last() =~= s.take(i as int));
            assert(s[i as int] == samples@[i as int]@);
            lemma_sample_bytes_prefix(s, i + 1);
        }
        let n: usize = samples[i].len();
        if n >= DICT_MIN_SAMPLES - total {
            return true;
        }
        total = total + n;
        i = i + 1;
    }
    assert(s.take(i as int) =~= s);
    false
}

/// The dictionary that is used once training gave its result: none where
/// training failed or where the length does not fit its field.
pub open spec fn usable(trained: Option<Seq<u8>>) -> Seq<u8> {
    match trained {
        Some(t) => if t.len() <= u32::MAX {
            t
        } else {
            Seq::empty()
        },
        None => Seq::empty(),
    }
}

/// The dictionary that is used once training gave its result.
pub fn usable_dict(trained: Option<Vec<u8>>) -> (d: Vec<u8>)
    ensures
        d@ == usable(
            match trained {
                Some(t) => Some(t@),
                None => None,
            },
        ),
{
    match trained {
        Some(t) => {
            if t.len() as u64 <= u32::MAX as u64 {
                t
            } else {
                Vec::new()
            }
        },
        None => Vec::new(),
    }
}

/// The dictionary `d` comes from training on these samples for `target` bytes;
/// there is none where the samples are too few.
pub open spec fn is_trained_dict(samples: Seq<Seq<u8>>, target: usize, d: Seq<u8>) -> bool {
    if enough_samples(samples) {
        exists|trained: Option<Seq<u8>>| #[trigger]
            training_outcome(samples, target, trained) && d == usable(trained)
    } else {
        d.len() == 0
    }
}

/// Trains a dictionary of about `target` bytes. There is none where there are
/// too few samples or where training fails.
pub fn train_dict(samples: &[Vec<u8>], target: usize) -> (d: Vec<u8>)
    requires
        sample_bytes(sample_views(samples@)) <= isize::MAX,
        target <= isize::MAX,
    ensures
        is_trained_dict(sample_views(samples@), target, d@),
        d@.len() <= u32::MAX,
{
    if !has_enough_samples(samples) {
        return Vec::new();
    }
    let res = dictionary_from(samples, target);
    let ghost outcome = trained_bytes(res);
    let trained: Option<Vec<u8>> = match res {
        Ok(d) => Some(d),
        Err(_) => None,
    };
    let d = usable_dict(trained);
    assert(training_outcome(sample_views(samples@), target, outcome) && d@ == usable(outcome));
    d
}

/// What a sample is: of a file that is not empty the front, at most 256 KiB, as long as
/// 16 MiB of samples are not reached. Nothing else is sampled.
pub proof fn lemma_sample_tells(e: SourceView, total: int)
    requires
        0 <= total <= 16 * 1024 * 1024,
    ensures
        e.kind != SourceKind::File || e.size == 0 ==> sample_of(e, total).len() == 0,
        e.kind == SourceKind::File && e.size > 0 ==> {
            let s = sample_of(e, total);
            &&& s == e.data.take(s.len() as int)
            &&& s.len() <= 256 * 1024
            &&& total + s.len() <= 16 * 1024 * 1024
            &&& s.len() == e.data.len() || s.len() == 256 * 1024 || total + s.len() == 16 * 1024
                * 1024
        },
{
    let s = sample_of(e, total);
    assert(s =~= e.data.take(s.len() as int) || s.len() == 0);
    if s.len() == 0 {
        assert(e.data.take(0) =~= Seq::empty());
    }
}

/// The samples are those of the entries, in order: one that gives no sample is passed over,
/// and any other adds its own.
pub proof fn lemma_samples_tell(es: Seq<SourceView>, i: int, total: int)
    requires
        0 <= i < es.len(),
        0 <= total < 16 * 1024 * 1024,
    ensures
        sample_of(es[i], total).len() == 0 ==> samples_from(es, i, total) == samples_from(
            es,
            i + 1,
            total,
        ),
        sample_of(es[i], total).len() > 0 ==> samples_from(es, i, total) == seq![
            sample_of(es[i], total),
        ] + samples_from(es, i + 1, total + sample_of(es[i], total).len()),
        samples_from(es, es.len() as int, total).len() == 0,
        samples_from(es, i, 16_777_216).len() == 0,
{
}

/// When a dictionary is trained: from at least seven samples with a mebibyte together.
pub proof fn lemma_training_needs(s: Seq<Seq<u8>>, target: usize, d: Seq<u8>)
    ensures
        enough_samples(s) <==> s.len() >= 7 && sample_bytes(s) >= 1024 * 1024,
        usable(None) == Seq::<u8>::empty(),
        d.len() <= u32::MAX ==> usable(Some(d)) == d,
        d.len() > u32::MAX ==> usable(Some(d)) == Seq::<u8>::empty(),
        s.len() < 7 && is_trained_dict(s, target, d) ==> d.len() == 0,
        sample_bytes(s) < 1024 * 1024 && is_trained_dict(s, target, d) ==> d.len() == 0,
{
}

/// The size of a dictionary never falls with the bytes to be packed, and stays between 64
/// and 256 KiB.
pub proof fn lemma_dict_target_rises(a: int, b: int)
    requires
        a <= b,
    ensures
        64 * 1024 <= dict_target(a) <= dict_target(b) <= 256 * 1024,
        a < 64 * 1024 * 1024 ==> dict_target(a) == 64 * 1024,
        64 * 1024 * 1024 <= a < 512 * 1024 * 1024 ==> dict_target(a) == 110 * 1024,
        512 * 1024 * 1024 <= a < 2 * 1024 * 1024 * 1024 ==> dict_target(a) == 192 * 1024,
        a >= 2 * 1024 * 1024 * 1024 ==> dict_target(a) == 256 * 1024,
{
}


} // verus!
