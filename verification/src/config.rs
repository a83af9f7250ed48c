//! What the daemon is told to do.
use std::path::PathBuf;

use vstd::prelude::*;

use crate::paths::{as_path, buf_parts, bytes_of, join, joined, lemma_plain_name, path_buf_bytes};

verus! {

/// The settings as they are written down.
pub struct RawConfig {
    /// The directory to watch.
    pub watch_dir: PathBuf,
    /// Where the log and the snapshots go.
    pub data_dir: Option<PathBuf>,
    /// The size in bytes above which a file is not snapshotted.
    pub max_snapshot_size: Option<u64>,
    /// Glob patterns, relative to the watched directory, of what to leave out.
    pub ignore: Vec<String>,
}

/// The settings with every default filled in.
pub struct Config {
    /// The directory to watch.
    pub watch_dir: PathBuf,
    /// Where the log and the snapshots go.
    pub data_dir: PathBuf,
    /// The size in bytes above which a file is not snapshotted.
    pub max_snapshot_size: u64,
    /// Glob patterns, relative to the watched directory, of what to leave out.
    pub ignore: Vec<String>,
}

/// 100 MB.
pub const DEFAULT_MAX_SNAPSHOT_SIZE: u64 = 104_857_600;

impl Config {
    /// Fills in the defaults.  `watch_dir` is the watched directory in its
    /// canonical form; the data directory lies in it unless the settings say
    /// otherwise.
    pub fn load(raw: RawConfig, watch_dir: PathBuf) -> (r: Config)
        ensures
            is_filled_in(raw, watch_dir, r),
            r.watch_dir == watch_dir,
            match raw.data_dir {
                Some(dir) => r.data_dir == dir,
                None => {
                    &&& path_buf_bytes(&r.data_dir) == joined(
                        path_buf_bytes(&watch_dir),
                        bytes_of(".replayfs"@),
                    )
                    &&& buf_parts(&r.data_dir) == buf_parts(&watch_dir).push(
                        bytes_of(".replayfs"@),
                    )
                },
            },
            r.max_snapshot_size == (match raw.max_snapshot_size {
                Some(size) => size,
                None => DEFAULT_MAX_SNAPSHOT_SIZE,
            }),
            r.ignore == raw.ignore,
    {
        proof {
            reveal_strlit(".replayfs");
            lemma_plain_name(".replayfs"@);
        }
        let data_dir = match raw.data_dir {
            Some(dir) => dir,
            None => join(as_path(&watch_dir), ".replayfs"),
        };
        let max_snapshot_size = match raw.max_snapshot_size {
            Some(size) => size,
            None => DEFAULT_MAX_SNAPSHOT_SIZE,
        };
        Config { watch_dir, data_dir, max_snapshot_size, ignore: raw.ignore }
    }
}

/// Whether these are the settings with every default filled in.
pub open spec fn is_filled_in(raw: RawConfig, watch_dir: PathBuf, config: Config) -> bool {
    &&& config.watch_dir == watch_dir
    &&& match raw.data_dir {
        Some(dir) => config.data_dir == dir,
        None => path_buf_bytes(&config.data_dir) == joined(
            path_buf_bytes(&watch_dir),
            bytes_of(".replayfs"@),
        ),
    }
    &&& config.max_snapshot_size == (match raw.max_snapshot_size {
        Some(size) => size,
        None => DEFAULT_MAX_SNAPSHOT_SIZE,
    })
    &&& config.ignore == raw.ignore
}

/// What is written down counts, whatever it is; what is not has its default.
pub proof fn law_written_settings_count(raw: RawConfig, watch_dir: PathBuf, config: Config)
    requires
        is_filled_in(raw, watch_dir, config),
    ensures
        config.watch_dir == watch_dir,
        config.ignore == raw.ignore,
        raw.data_dir matches Some(dir) ==> config.data_dir == dir,
        raw.data_dir is None ==> path_buf_bytes(&config.data_dir) == joined(
            path_buf_bytes(&watch_dir),
            bytes_of(".replayfs"@),
        ),
        raw.max_snapshot_size matches Some(size) ==> config.max_snapshot_size == size,
        raw.max_snapshot_size is None ==> config.max_snapshot_size == 100 * 1024 * 1024,
{
}

} // verus!
