//! Which snapshots a file system can take.

use vstd::prelude::*;
use crate::paths::{lines_of, split_lines};
use crate::text::trimmed;

verus! {

/// The file systems that are told apart.
#[derive(Clone, Copy, Debug, PartialEq, Eq, Structural)]
pub enum FsKind {
    Btrfs,
    Zfs,
    Ext4,
    Xfs,
    Tmpfs,
    Fuse,
}

/// The file system with a magic number.
pub open spec fn fs_of(magic: u32) -> Option<FsKind> {
    if magic == 0x9123_683E {
        Some(FsKind::Btrfs)
    } else if magic == 0x2FC1_2FC1 {
        Some(FsKind::Zfs)
    } else if magic == 0xEF53 {
        Some(FsKind::Ext4)
    } else if magic == 0x5846_5342 {
        Some(FsKind::Xfs)
    } else if magic == 0x0102_1994 {
        Some(FsKind::Tmpfs)
    } else if magic == 0x6573_5546 {
        Some(FsKind::Fuse)
    } else {
        None
    }
}

/// The file system with a magic number.
pub fn detect_fs(magic: u32) -> (k: Option<FsKind>)
    ensures
        k == fs_of(magic),
        k == Some(FsKind::Btrfs) <==> magic == 0x9123_683E,
        k == Some(FsKind::Zfs) <==> magic == 0x2FC1_2FC1,
        k == Some(FsKind::Ext4) <==> magic == 0xEF53,
        k == Some(FsKind::Xfs) <==> magic == 0x5846_5342,
        k == Some(FsKind::Tmpfs) <==> magic == 0x0102_1994,
        k == Some(FsKind::Fuse) <==> magic == 0x6573_5546,
{
    match magic {
        0x9123_683E => Some(FsKind::Btrfs),
        0x2FC1_2FC1 => Some(FsKind::Zfs),
        0xEF53 => Some(FsKind::Ext4),
        0x5846_5342 => Some(FsKind::Xfs),
        0x0102_1994 => Some(FsKind::Tmpfs),
        0x6573_5546 => Some(FsKind::Fuse),
        _ => None,
    }
}

impl FsKind {
    /// The name of a file system.
    pub fn name(self) -> (s: &'static str)
        ensures
            s@ == (match self {
                FsKind::Btrfs => "btrfs"@,
                FsKind::Zfs => "zfs"@,
                FsKind::Ext4 => "ext4"@,
                FsKind::Xfs => "xfs"@,
                FsKind::Tmpfs => "tmpfs"@,
                FsKind::Fuse => "fuse"@,
            }),
    {
        match self {
            FsKind::Btrfs => "btrfs",
            FsKind::Zfs => "zfs",
            FsKind::Ext4 => "ext4",
            FsKind::Xfs => "xfs",
            FsKind::Tmpfs => "tmpfs",
            FsKind::Fuse => "fuse",
        }
    }
}

/// What is done to get a steady view of a tree.
#[derive(Clone, Copy, Debug, PartialEq, Eq, Structural)]
pub enum SnapshotPlan {
    Btrfs,
    Zfs,
    /// The live tree is used.
    Live,
}

/// Snapshots are taken by Btrfs and ZFS; of any other file system, and of an
/// unknown one, the live tree is used.
pub fn plan_snapshot(fs: Option<FsKind>) -> (p: SnapshotPlan)
    ensures
        p == (match fs {
            Some(FsKind::Btrfs) => SnapshotPlan::Btrfs,
            Some(FsKind::Zfs) => SnapshotPlan::Zfs,
            _ => SnapshotPlan::Live,
        }),
{
    match fs {
        Some(FsKind::Btrfs) => SnapshotPlan::Btrfs,
        Some(FsKind::Zfs) => SnapshotPlan::Zfs,
        _ => SnapshotPlan::Live,
    }
}

/// The second line of a text without the white space around it, if there is
/// anything on it.
pub open spec fn second_line(s: Seq<char>) -> Option<Seq<char>> {
    let lines = lines_of(s);
    if lines.len() < 2 || trimmed(lines[1]).len() == 0 {
        None
    } else {
        Some(trimmed(lines[1]))
    }
}

/// The ZFS dataset of a path, from what `df --output=source` prints about it:
/// a heading and the dataset.
pub fn dataset_of(df_output: &str) -> (r: Option<String>)
    ensures
        match second_line(df_output@) {
            Some(d) => r matches Some(x) && x@ == d,
            None => r is None,
        },
{
    let lines = split_lines(df_output);
    if lines.len() < 2 {
        return None;
    }
    assert(crate::cli::texts(lines@)[1] == lines@[1]@);
    let t = lines[1].as_str().trim();
    if t.unicode_len() == 0 {
        return None;
    }
    Some(t.to_owned())
}


/// The data set is on the second line, without the white space around it.
pub proof fn lemma_second_line_tells(first: Seq<char>, second: Seq<char>, rest: Seq<char>)
    requires
        forall|k: int| 0 <= k < first.len() ==> #[trigger] first[k] != '\n',
        forall|k: int| 0 <= k < second.len() ==> #[trigger] second[k] != '\n',
        forall|k: int| 0 <= k < rest.len() ==> #[trigger] rest[k] != '\n',
    ensures
        second_line(first) is None,
        trimmed(second).len() > 0 ==> second_line(first.push('\n') + second) == Some(
            trimmed(second),
        ),
        trimmed(second).len() > 0 ==> second_line(
            (first.push('\n') + second).push('\n') + rest,
        ) == Some(trimmed(second)),
        trimmed(second).len() == 0 ==> second_line(first.push('\n') + second) is None,
{
    crate::paths::lemma_lines_tell(first, second);
    crate::paths::lemma_lines_tell(first, first);
    crate::paths::lemma_lines_tell(first.push('\n') + second, rest);
}

} // verus!
