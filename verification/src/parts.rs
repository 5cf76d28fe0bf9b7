//! Archives in parts, and where archives are written to and read from.

use vstd::prelude::*;
use crate::paths::{is_stream_path, temporary_path};
use crate::plan::PlanError;
use crate::wire::{lemma_grouping, write_bytes};

verus! {

/// The parts of an archive: all of `size` bytes but the last, which has what is
/// left. There is always one part. The archive is cut at exact sizes, not where
/// the writes that made it end, so no part is ever longer.
pub open spec fn parts_of(data: Seq<u8>, size: int) -> Seq<Seq<u8>>
    decreases data.len(),
{
    if size < 1 || data.len() <= size {
        seq![data]
    } else {
        seq![data.take(size)] + parts_of(data.skip(size), size)
    }
}

/// The bytes of several parts in order.
pub open spec fn joined(parts: Seq<Seq<u8>>) -> Seq<u8>
    decreases parts.len(),
{
    if parts.len() == 0 {
        Seq::empty()
    } else {
        parts[0] + joined(parts.skip(1))
    }
}

/// The bytes of several parts.
pub open spec fn part_views(v: Seq<Vec<u8>>) -> Seq<Seq<u8>> {
    Seq::new(v.len(), |k: int| v[k]@)
}

/// Joining the parts of an archive gives it back, and no part is longer than
/// the size asked for.
pub proof fn lemma_parts_round_trip(data: Seq<u8>, size: int)
    requires
        size >= 1,
    ensures
        joined(parts_of(data, size)) == data,
        forall|k: int|
            0 <= k < parts_of(data, size).len() ==> (#[trigger] parts_of(data, size)[k]).len()
                <= size,
        forall|k: int|
            0 <= k < parts_of(data, size).len() - 1 ==> (#[trigger] parts_of(data, size)[k]).len()
                == size,
    decreases data.len(),
{
    let p = parts_of(data, size);
    if data.len() <= size {
        assert(p.skip(1) =~= Seq::empty());
        assert(joined(p.skip(1)) =~= Seq::empty());
        assert(data + Seq::<u8>::empty() =~= data);
    } else {
        let rest = data.skip(size);
        let q = parts_of(rest, size);
        lemma_parts_round_trip(rest, size);
        assert(p.skip(1) =~= q);
        assert(data.take(size) + rest =~= data);
        assert forall|k: int| 0 <= k < p.len() implies (#[trigger] p[k]).len() <= size by {
            if k > 0 {
                assert(p[k] == q[k - 1]);
            }
        }
        assert forall|k: int| 0 <= k < p.len() - 1 implies (#[trigger] p[k]).len() == size by {
            if k > 0 {
                assert(p[k] == q[k - 1]);
            }
        }
    }
}

/// Part `k` is what the archive has from `k` times the size on, up to the size. There
/// are as many parts as that needs, and always one.
pub proof fn lemma_part_stands(data: Seq<u8>, size: int, k: int)
    requires
        size >= 1,
        0 <= k < parts_of(data, size).len(),
    ensures
        0 <= k * size <= data.len(),
        k > 0 ==> k * size < data.len(),
        k == parts_of(data, size).len() - 1 ==> data.len() <= k * size + size
            && parts_of(data, size)[k] == data.skip(k * size),
        k < parts_of(data, size).len() - 1 ==> k * size + size < data.len() && parts_of(
            data,
            size,
        )[k] == data.subrange(k * size, k * size + size),
    decreases data.len(),
{
    let p = parts_of(data, size);
    if data.len() <= size {
        assert(data.skip(0) =~= data);
    } else {
        let rest = data.skip(size);
        let q = parts_of(rest, size);
        assert(p.skip(1) =~= q);
        if k == 0 {
            assert(q.len() >= 1) by {
                if rest.len() > size {
                    assert(q.len() == 1 + parts_of(rest.skip(size), size).len());
                }
            }
            assert(data.subrange(0, size) =~= data.take(size));
        } else {
            lemma_part_stands(rest, size, k - 1);
            assert((k - 1) * size + size == k * size) by (nonlinear_arith);
            assert(p[k] == q[k - 1]);
            assert(rest.skip((k - 1) * size) =~= data.skip(k * size));
            if k < p.len() - 1 {
                assert(rest.subrange((k - 1) * size, (k - 1) * size + size) =~= data.subrange(
                    k * size,
                    k * size + size,
                ));
            }
        }
    }
}

/// Joining puts every part behind those before it.
pub proof fn lemma_joined_grows(parts: Seq<Seq<u8>>, part: Seq<u8>)
    ensures
        joined(parts.push(part)) == joined(parts) + part,
        joined(Seq::empty()) == Seq::<u8>::empty(),
    decreases parts.len(),
{
    let all = parts.push(part);
    if parts.len() == 0 {
        assert(all.skip(1) =~= Seq::empty());
        assert(joined(all.skip(1)) =~= Seq::empty());
        assert(joined(all) =~= part);
        assert(Seq::<u8>::empty() + part =~= part);
    } else {
        assert(all.skip(1) =~= parts.skip(1).push(part));
        lemma_joined_grows(parts.skip(1), part);
        lemma_grouping(parts[0], joined(parts.skip(1)), part);
    }
}

/// Divides an archive into parts of exactly `size` bytes, but for the last.
pub fn split_parts(data: &[u8], size: u64) -> (r: Vec<Vec<u8>>)
    requires
        size >= 1,
    ensures
        part_views(r@) == parts_of(data@, size as int),
        r@.len() >= 1,
        forall|k: int| 0 <= k < r@.len() - 1 ==> (#[trigger] r@[k])@.len() == size,
        forall|k: int, n: int|
            0 <= k < r@.len() && 0 <= n < r@[k]@.len() ==> #[trigger] r@[k]@[n] == data@[k * size
                + n],
        (r@.len() - 1) * size + r@[r@.len() - 1]@.len() == data@.len(),
{
    let mut out: Vec<Vec<u8>> = Vec::new();
    let mut at: usize = 0;
    assert(data@.skip(0) =~= data@);
    assert(part_views(out@) + parts_of(data@, size as int) =~= parts_of(data@, size as int));
    while (data.len() - at) as u64 > size
        invariant
            at <= data@.len(),
            size >= 1,
            part_views(out@) + parts_of(data@.skip(at as int), size as int) == parts_of(
                data@,
                size as int,
            ),
        decreases data@.len() - at,
    {
        let next: usize = at + size as usize;
        let ghost before = part_views(out@);
        let ghost tail = data@.skip(at as int);
        let mut part: Vec<u8> = Vec::new();
        write_bytes(&mut part, vstd::slice::slice_subrange(data, at, next));
        out.push(part);
        proof {
            assert(part@ =~= tail.take(size as int));
            assert(tail.skip(size as int) =~= data@.skip(next as int));
            assert(part_views(out@) =~= before.push(part@));
            let rest = parts_of(data@.skip(next as int), size as int);
            assert(before + (seq![part@] + rest) =~= before.push(part@) + rest);
        }
        at = next;
    }
    let ghost before = part_views(out@);
    let mut last: Vec<u8> = Vec::new();
    write_bytes(&mut last, vstd::slice::slice_subrange(data, at, data.len()));
    out.push(last);
    proof {
        assert(last@ =~= data@.skip(at as int));
        assert(part_views(out@) =~= before + seq![last@]);
        let all = parts_of(data@, size as int);
        assert forall|k: int| 0 <= k < out@.len() - 1 implies (#[trigger] out@[k])@.len()
            == size by {
            lemma_part_stands(data@, size as int, k);
            assert(all[k] == out@[k]@);
        }
        assert forall|k: int, n: int|
            0 <= k < out@.len() && 0 <= n < out@[k]@.len() implies #[trigger] out@[k]@[n]
            == data@[k * size + n] by {
            lemma_part_stands(data@, size as int, k);
            assert(all[k] == out@[k]@);
        }
        lemma_part_stands(data@, size as int, out@.len() - 1);
        assert(all[out@.len() - 1] == out@[out@.len() - 1]@);
    }
    out
}

/// Puts the parts of an archive together.
pub fn join_parts(parts: &[Vec<u8>]) -> (r: Vec<u8>)
    ensures
        r@ == joined(part_views(parts@)),
{
    let ghost all = part_views(parts@);
    let mut out: Vec<u8> = Vec::new();
    let mut i: usize = 0;
    assert(all.skip(0) =~= all);
    assert(out@ + joined(all) =~= joined(all));
    while i < parts.len()
        invariant
            all == part_views(parts@),
            i <= parts@.len(),
            out@ + joined(all.skip(i as int)) == joined(all),
        decreases parts@.len() - i,
    {
        proof {
            let t = all.skip(i as int);
            assert(t.skip(1) =~= all.skip(i + 1));
            assert(t[0] == parts@[i as int]@);
            lemma_grouping(out@, t[0], joined(t.skip(1)));
        }
        write_bytes(&mut out, parts[i].as_slice());
        i = i + 1;
    }
    assert(all.skip(i as int) =~= Seq::empty());
    assert(out@ + Seq::<u8>::empty() =~= out@);
    out
}

/// Where an archive is written to.
#[derive(Debug)]
pub enum Output {
    /// The standard output.
    Stdout,
    /// Parts of the given size.
    Parts { size: u64 },
    /// A file that gets its name once it is complete, and has the given name
    /// until then.
    File { temporary: String },
}

/// Where an archive is written to: to the standard output where its path is
/// `-`, in parts where a size is given, and else to one file.
pub fn open_output(archive: &str, chunk_bytes: Option<u64>) -> (res: Result<Output, PlanError>)
    ensures
        if archive@ == "-"@ {
            if chunk_bytes is Some {
                res == Err::<Output, PlanError>(PlanError::ChunkToStdout)
            } else {
                res matches Ok(Output::Stdout)
            }
        } else {
            match chunk_bytes {
                Some(n) => res == Ok::<Output, PlanError>(
                    Output::Parts {
                        size: if n < 1 {
                            1
                        } else {
                            n
                        },
                    },
                ),
                None => res matches Ok(Output::File { temporary }) && temporary@ == archive@
                    + ".tmp"@,
            }
        },
{
    if is_stream_path(archive) {
        if chunk_bytes.is_some() {
            return Err(PlanError::ChunkToStdout);
        }
        return Ok(Output::Stdout);
    }
    if let Some(n) = chunk_bytes {
        let size: u64 = if n < 1 {
            1
        } else {
            n
        };
        return Ok(Output::Parts { size });
    }
    Ok(Output::File { temporary: temporary_path(archive) })
}

/// Where an archive is read from.
#[derive(Clone, Copy, Debug, PartialEq, Eq, Structural)]
pub enum Input {
    Stdin,
    File,
    Parts,
}

/// Where an archive is read from: from the standard input where its path is
/// `-`, from the file with its name, or else from parts if there is a first
/// one. Nothing where there is neither.
pub fn open_input(archive: &str, exists: bool, first_part_exists: bool) -> (r: Option<Input>)
    ensures
        r == (if archive@ == "-"@ {
            Some(Input::Stdin)
        } else if exists {
            Some(Input::File)
        } else if first_part_exists {
            Some(Input::Parts)
        } else {
            None
        }),
{
    if is_stream_path(archive) {
        Some(Input::Stdin)
    } else if exists {
        Some(Input::File)
    } else if first_part_exists {
        Some(Input::Parts)
    } else {
        None
    }
}

} // verus!
