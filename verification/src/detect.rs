//! The kind of a file by its first bytes.

use vstd::prelude::*;

verus! {

/// What the first bytes of a file tell about it.
#[derive(Clone, Copy, Debug, PartialEq, Eq, Structural)]
pub enum FileKind {
    Jpeg,
    Png,
    Other,
}

/// JPEG files start with `FF D8`, PNG files with `89` and `PNG`.
pub open spec fn file_kind(head: Seq<u8>) -> FileKind {
    if head.len() >= 2 && head[0] == 0xFF && head[1] == 0xD8 {
        FileKind::Jpeg
    } else if head.len() >= 4 && head[0] == 0x89 && head[1] == 0x50 && head[2] == 0x4E && head[3]
        == 0x47 {
        FileKind::Png
    } else {
        FileKind::Other
    }
}

/// The kind of a file by as many of its first bytes as could be read.
pub fn detect(head: &[u8]) -> (k: FileKind)
    ensures
        k == file_kind(head@),
        k == FileKind::Jpeg <==> head@.len() >= 2 && head@.take(2) == seq![0xFFu8, 0xD8],
        k == FileKind::Png <==> head@.len() >= 4 && head@.take(4) == seq![0x89u8, 0x50, 0x4E, 0x47],
{
    proof {
        if head@.len() >= 2 {
            assert(head@.take(2) =~= seq![head@[0], head@[1]]);
            assert(seq![0xFFu8, 0xD8][0] == 0xFF && seq![0xFFu8, 0xD8][1] == 0xD8);
        }
        if head@.len() >= 4 {
            assert(head@.take(4) =~= seq![head@[0], head@[1], head@[2], head@[3]]);
            let png = seq![0x89u8, 0x50, 0x4E, 0x47];
            assert(png[0] == 0x89 && png[1] == 0x50 && png[2] == 0x4E && png[3] == 0x47);
        }
    }
    if head.len() >= 2 && head[0] == 0xFF && head[1] == 0xD8 {
        return FileKind::Jpeg;
    }
    if head.len() >= 4 && head[0] == 0x89 && head[1] == 0x50 && head[2] == 0x4E && head[3] == 0x47 {
        return FileKind::Png;
    }
    FileKind::Other
}


} // verus!
