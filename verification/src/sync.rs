//! Synchronising generated audio from a ComfyUI server into the workspace: the
//! configuration, the record of finished downloads and the controller's state.
use vstd::prelude::*;
use crate::json::text_eq;
use crate::paths::{
    absolute_path, components, file_name, file_name_of, is_absolute, join_path, path_components,
    push_path,
};
use crate::text::{trim, trim_end_char, trim_end_char_seq, trim_seq, str_starts_with, starts_with_seq};

verus! {

pub const DEFAULT_REMOTE_DIRECTORY: &'static str = "output/audio";

pub const DEFAULT_LOCAL_DIRECTORY: &'static str = "downloads";

pub const DEFAULT_INTERVAL_MS: u64 = 4000;

/// The server folder synchronised unless set otherwise.
pub fn default_remote_directory() -> (r: String)
    ensures
        r@ == DEFAULT_REMOTE_DIRECTORY@,
{
    String::from_str(DEFAULT_REMOTE_DIRECTORY)
}

/// The time between passes unless set otherwise, in milliseconds.
pub fn default_interval_ms() -> (r: u64)
    ensures
        r == DEFAULT_INTERVAL_MS,
{
    DEFAULT_INTERVAL_MS
}

/// Where and how often to synchronise.
#[derive(Clone, Debug, PartialEq)]
pub struct SyncConfig {
    pub url: String,
    pub remote_directory: String,
    pub local_directory: String,
    pub interval_ms: u64,
}

impl Default for SyncConfig {
    fn default() -> (r: Self)
        ensures
            r.url@ == Seq::<char>::empty(),
            r.remote_directory@ == "output/audio"@,
            r.local_directory@ == "downloads"@,
            r.interval_ms == 4000,
    {
        let r = SyncConfig {
            url: String::new(),
            remote_directory: String::from_str(DEFAULT_REMOTE_DIRECTORY),
            local_directory: String::from_str(DEFAULT_LOCAL_DIRECTORY),
            interval_ms: DEFAULT_INTERVAL_MS,
        };
        assert(r.url@ =~= Seq::<char>::empty());
        r
    }
}

/// Why a synchronisation step failed.
#[derive(Clone, Debug, PartialEq)]
pub enum SyncError {
    InvalidConfig(String),
    Request(String),
    Io(String),
    Response(String),
}

impl SyncError {
    /// The text shown to the user.
    pub fn message(&self) -> (r: String)
        ensures
            r@ == match self {
                SyncError::InvalidConfig(m) => m@,
                SyncError::Response(m) => m@,
                SyncError::Request(m) => "ComfyUI request failed: "@ + m@,
                SyncError::Io(m) => "File sync failed: "@ + m@,
            },
    {
        match self {
            SyncError::InvalidConfig(m) => m.clone(),
            SyncError::Response(m) => m.clone(),
            SyncError::Request(m) => {
                let mut t = String::from_str("ComfyUI request failed: ");
                t.append(m.as_str());
                t
            },
            SyncError::Io(m) => {
                let mut t = String::from_str("File sync failed: ");
                t.append(m.as_str());
                t
            },
        }
    }
}

/// A local directory that stays inside the workspace: relative, without `..`.
pub open spec fn stays_inside(local: Seq<char>) -> bool {
    !is_absolute(local) && !components(local).contains(".."@)
}

impl SyncConfig {
    /// The configuration with the URL trimmed of spaces and trailing slashes, the remote
    /// directory trimmed, and the interval at least 100 ms.
    pub fn normalized(self) -> (r: Self)
        ensures
            r.url@ == trim_end_char_seq(trim_seq(self.url@), '/'),
            r.remote_directory@ == trim_seq(self.remote_directory@),
            r.local_directory@ == self.local_directory@,
            r.interval_ms == if self.interval_ms < 100 {
                100
            } else {
                self.interval_ms
            },
    {
        let t = trim(self.url.as_str());
        let url = trim_end_char(t.as_str(), '/');
        let remote_directory = trim(self.remote_directory.as_str());
        let interval_ms = if self.interval_ms < 100 {
            100
        } else {
            self.interval_ms
        };
        SyncConfig { url, remote_directory, local_directory: self.local_directory, interval_ms }
    }

    /// The download directory inside the workspace; refused when it would lead out of it.
    pub fn local_path(&self, workspace: &str) -> (r: Result<String, SyncError>)
        ensures
            match r {
                Ok(p) => stays_inside(self.local_directory@) && p@ == push_path(
                    workspace@,
                    self.local_directory@,
                ),
                Err(e) => !stays_inside(self.local_directory@) && e == SyncError::InvalidConfig(
                    e->InvalidConfig_0,
                ) && e->InvalidConfig_0@ == "Download directory must be inside the workspace"@,
            },
    {
        let local = self.local_directory.as_str();
        let cs = path_components(local);
        let mut escapes = absolute_path(local);
        let n = cs.len();
        for i in 0..n
            invariant
                n == cs.len(),
                escapes == (is_absolute(local@) || exists|k: int|
                    0 <= k < i && cs@[k]@ == ".."@),
        {
            if text_eq(cs[i].as_str(), "..") {
                escapes = true;
            }
        }
        proof {
            let m = cs@.map_values(|c: String| c@);
            if components(local@).contains(".."@) {
                let k = choose|k: int| 0 <= k < m.len() && m[k] == ".."@;
                assert(cs@[k]@ == ".."@);
            }
            if exists|k: int| 0 <= k < n && cs@[k]@ == ".."@ {
                let k = choose|k: int| 0 <= k < n && cs@[k]@ == ".."@;
                assert(m[k] == ".."@);
            }
        }
        if escapes {
            return Err(
                SyncError::InvalidConfig(
                    String::from_str("Download directory must be inside the workspace"),
                ),
            );
        }
        Ok(join_path(workspace, local))
    }
}

/// A file that the server offers.
#[derive(Clone, Debug)]
pub struct RemoteFile {
    pub name: String,
    pub path: String,
    pub modified: u64,
}

/// A finished download.
#[derive(Clone, Debug, PartialEq)]
pub struct DownloadRecord {
    pub url: String,
    pub remote_path: String,
    pub filename: String,
    pub downloaded_at: u64,
    pub status: String,
    pub size: u64,
}

pub struct RecordModel {
    pub url: Seq<char>,
    pub remote_path: Seq<char>,
    pub filename: Seq<char>,
    pub downloaded_at: u64,
    pub status: Seq<char>,
    pub size: u64,
}

impl View for DownloadRecord {
    type V = RecordModel;

    open spec fn view(&self) -> RecordModel {
        RecordModel {
            url: self.url@,
            remote_path: self.remote_path@,
            filename: self.filename@,
            downloaded_at: self.downloaded_at,
            status: self.status@,
            size: self.size,
        }
    }
}

pub open spec fn records(rs: Seq<DownloadRecord>) -> Seq<RecordModel> {
    rs.map_values(|r: DownloadRecord| r@)
}

impl DownloadRecord {
    /// A copy of the record.
    pub fn copy(&self) -> (r: Self)
        ensures
            r@ == self@,
    {
        DownloadRecord {
            url: self.url.clone(),
            remote_path: self.remote_path.clone(),
            filename: self.filename.clone(),
            downloaded_at: self.downloaded_at,
            status: self.status.clone(),
            size: self.size,
        }
    }
}

/// The downloads that were finished, kept across sessions.
#[derive(Clone, Debug, PartialEq)]
pub struct DownloadIndex {
    pub downloads: Vec<DownloadRecord>,
}

/// A record of a finished download of `path` from `url`.
pub open spec fn completed_record(r: RecordModel, url: Seq<char>, path: Seq<char>) -> bool {
    r.status == "completed"@ && r.url == url && r.remote_path == path
}

/// A record about `path` from `url`, whatever its status.
pub open spec fn same_source(r: RecordModel, url: Seq<char>, path: Seq<char>) -> bool {
    r.url == url && r.remote_path == path
}

/// The name a downloaded file gets: the last component of its remote name.
pub open spec fn local_name(name: Seq<char>) -> Seq<char> {
    match file_name_of(name) {
        Some(n) => n,
        None => Seq::empty(),
    }
}

/// The records that stay when `path` from `url` is recorded anew.
pub open spec fn other_sources(rs: Seq<RecordModel>, url: Seq<char>, path: Seq<char>) -> Seq<
    RecordModel,
>
    decreases rs.len(),
{
    if rs.len() == 0 {
        rs
    } else {
        let rest = other_sources(rs.drop_last(), url, path);
        if same_source(rs.last(), url, path) {
            rest
        } else {
            rest.push(rs.last())
        }
    }
}

/// The seconds since the Unix epoch by the system clock.
#[verifier::external_body]
fn now_seconds() -> (r: u64) {
    match std::time::SystemTime::now().duration_since(std::time::UNIX_EPOCH) {
        Ok(d) => d.as_secs(),
        Err(_) => 0,
    }
}

impl DownloadIndex {
    /// An empty index.
    pub fn new() -> (r: Self)
        ensures
            r.downloads@.len() == 0,
    {
        DownloadIndex { downloads: Vec::new() }
    }

    /// Whether `file` from the configured server was downloaded to the end.
    pub fn contains_completed(&self, config: &SyncConfig, file: &RemoteFile) -> (r: bool)
        ensures
            r == exists|i: int|
                0 <= i < self.downloads@.len() && completed_record(
                    #[trigger] records(self.downloads@)[i],
                    config.url@,
                    file.path@,
                ),
    {
        let n = self.downloads.len();
        for i in 0..n
            invariant
                n == self.downloads.len(),
                forall|k: int|
                    0 <= k < i ==> !completed_record(
                        #[trigger] records(self.downloads@)[k],
                        config.url@,
                        file.path@,
                    ),
        {
            let r = &self.downloads[i];
            if text_eq(r.status.as_str(), "completed") && text_eq(r.url.as_str(), config.url.as_str())
                && text_eq(r.remote_path.as_str(), file.path.as_str()) {
                assert(completed_record(records(self.downloads@)[i as int], config.url@, file.path@));
                return true;
            }
        }
        false
    }

    /// Records a finished download at time `now`: earlier records of the same file
    /// from the same server leave, and the new record comes last.
    pub fn record_completed_at(&mut self, config: &SyncConfig, file: &RemoteFile, size: u64, now: u64)
        ensures
            records(final(self).downloads@) == other_sources(
                records(old(self).downloads@),
                config.url@,
                file.path@,
            ).push(
                RecordModel {
                    url: config.url@,
                    remote_path: file.path@,
                    filename: local_name(file.name@),
                    downloaded_at: now,
                    status: "completed"@,
                    size,
                },
            ),
    {
        let ghost old_rs = records(self.downloads@);
        let mut kept: Vec<DownloadRecord> = Vec::new();
        let n = self.downloads.len();
        for i in 0..n
            invariant
                n == self.downloads.len(),
                old_rs == records(self.downloads@),
                records(kept@) == other_sources(old_rs.take(i as int), config.url@, file.path@),
        {
            assert(old_rs.take(i + 1).drop_last() =~= old_rs.take(i as int));
            let r = &self.downloads[i];
            assert(old_rs.take(i + 1).last() == r@);
            let ghost before = kept@;
            if !(text_eq(r.url.as_str(), config.url.as_str()) && text_eq(
                r.remote_path.as_str(),
                file.path.as_str(),
            )) {
                kept.push(r.copy());
                assert(records(kept@) =~= records(before).push(r@));
            }
        }
        assert(old_rs.take(n as int) =~= old_rs);
        let filename = match file_name(file.name.as_str()) {
            Some(t) => t,
            None => {
                let e = String::new();
                assert(e@ =~= Seq::<char>::empty());
                e
            },
        };
        let ghost before = kept@;
        let record = DownloadRecord {
            url: config.url.clone(),
            remote_path: file.path.clone(),
            filename,
            downloaded_at: now,
            status: String::from_str("completed"),
            size,
        };
        kept.push(record);
        assert(records(kept@) =~= records(before).push(record@));
        self.downloads = kept;
    }

    /// Records a finished download now (see `record_completed_at`).
    pub fn record_completed(&mut self, config: &SyncConfig, file: &RemoteFile, size: u64)
        ensures
            records(final(self).downloads@).drop_last() == other_sources(
                records(old(self).downloads@),
                config.url@,
                file.path@,
            ),
            records(final(self).downloads@).len() > 0,
            records(final(self).downloads@).last().url == config.url@,
            records(final(self).downloads@).last().remote_path == file.path@,
            records(final(self).downloads@).last().filename == local_name(file.name@),
            records(final(self).downloads@).last().status == "completed"@,
            records(final(self).downloads@).last().size == size,
    {
        let now = now_seconds();
        self.record_completed_at(config, file, size, now);
        assert(records(self.downloads@).drop_last() =~= other_sources(
            records(old(self).downloads@),
            config.url@,
            file.path@,
        ));
    }
}

/// How many of the server's files the workspace holds.
#[derive(Clone, Debug, PartialEq)]
pub struct SyncProgress {
    pub present: usize,
    pub total: usize,
}

/// What the synchronisation reports, each event tagged with the run it belongs to.
pub enum SyncEvent {
    Running { generation: u64 },
    Progress { generation: u64, progress: SyncProgress },
    Downloaded { generation: u64, audio_path: String },
    WorkflowUpdated { generation: u64, audio_path: String },
    Error { generation: u64, message: String },
}

/// The run counter of the synchronisation and whether a run is going.
pub struct SyncController {
    pub generation: u64,
    pub running: bool,
}

/// The number of the run after run `g` (`wrapping_add(1)`).
pub open spec fn next_generation(g: u64) -> u64 {
    if g == u64::MAX {
        0
    } else {
        (g + 1) as u64
    }
}

impl SyncController {
    /// No run yet.
    pub fn new() -> (r: Self)
        ensures
            r.generation == 0,
            !r.running,
    {
        SyncController { generation: 0, running: false }
    }

    /// Starts a run: any run going is stopped, and the run counter moves on (wrapping).
    /// Returns the number of the new run.
    pub fn start(&mut self) -> (r: u64)
        ensures
            r == final(self).generation,
            final(self).generation == next_generation(old(self).generation),
            final(self).running,
    {
        self.stop();
        self.generation = self.generation.wrapping_add(1);
        self.running = true;
        self.generation
    }

    /// Stops the run that is going; `true` when there was one to tell to stop.
    pub fn stop(&mut self) -> (r: bool)
        ensures
            r == old(self).running,
            !final(self).running,
            final(self).generation == old(self).generation,
    {
        let was = self.running;
        self.running = false;
        was
    }

    /// The number of the latest run.
    pub fn generation(&self) -> (r: u64)
        ensures
            r == self.generation,
    {
        self.generation
    }
}

/// Where the configuration of a workspace is kept.
pub fn config_path(workspace: &str) -> (r: String)
    ensures
        r@ == push_path(push_path(workspace@, ".adbstudio"@), "sync.json"@),
{
    let d = join_path(workspace, ".adbstudio");
    join_path(d.as_str(), "sync.json")
}

/// Where the record of finished downloads of a workspace is kept.
pub fn download_index_path(workspace: &str) -> (r: String)
    ensures
        r@ == push_path(push_path(workspace@, ".adbstudio"@), "sync-downloads.json"@),
{
    let d = join_path(workspace, ".adbstudio");
    join_path(d.as_str(), "sync-downloads.json")
}

pub struct RemoteModel {
    pub name: Seq<char>,
    pub path: Seq<char>,
    pub modified: u64,
}

impl View for RemoteFile {
    type V = RemoteModel;

    open spec fn view(&self) -> RemoteModel {
        RemoteModel { name: self.name@, path: self.path@, modified: self.modified }
    }
}

pub open spec fn remotes(fs: Seq<RemoteFile>) -> Seq<RemoteModel> {
    fs.map_values(|f: RemoteFile| f@)
}

impl RemoteFile {
    /// A copy of the entry.
    pub fn copy(&self) -> (r: Self)
        ensures
            r@ == self@,
    {
        RemoteFile { name: self.name.clone(), path: self.path.clone(), modified: self.modified }
    }
}

/// The first place in a list, newest first, that holds a file older than `t`.
pub open spec fn first_older(s: Seq<RemoteModel>, t: u64) -> int
    decreases s.len(),
{
    if s.len() == 0 {
        0
    } else if s[0].modified < t {
        0
    } else {
        1 + first_older(s.drop_first(), t)
    }
}

/// The files newest first; files of the same time keep their order.
pub open spec fn newest_first(s: Seq<RemoteModel>) -> Seq<RemoteModel>
    decreases s.len(),
{
    if s.len() == 0 {
        s
    } else {
        let t = newest_first(s.drop_last());
        t.insert(first_older(t, s.last().modified), s.last())
    }
}

/// Newest first.
pub open spec fn is_newest_first(s: Seq<RemoteModel>) -> bool {
    forall|i: int, j: int| 0 <= i < j < s.len() ==> s[i].modified >= s[j].modified
}

proof fn lemma_first_older(s: Seq<RemoteModel>, t: u64)
    requires
        is_newest_first(s),
    ensures
        0 <= first_older(s, t) <= s.len(),
        forall|k: int| 0 <= k < first_older(s, t) ==> s[k].modified >= t,
        forall|k: int| first_older(s, t) <= k < s.len() ==> s[k].modified < t,
    decreases s.len(),
{
    if s.len() > 0 {
        if s[0].modified >= t {
            let d = s.drop_first();
            assert forall|i: int, j: int| 0 <= i < j < d.len() implies d[i].modified >= d[j].modified by {
                assert(s[i + 1].modified >= s[j + 1].modified);
            }
            lemma_first_older(d, t);
            assert forall|k: int| 0 <= k < first_older(s, t) implies s[k].modified >= t by {
                if k > 0 {
                    assert(s[k] == d[k - 1]);
                }
            }
            assert forall|k: int| first_older(s, t) <= k < s.len() implies s[k].modified < t by {
                assert(s[k] == d[k - 1]);
            }
        } else {
            assert forall|k: int| 0 <= k < s.len() implies s[k].modified < t by {
                if k > 0 {
                    assert(s[0].modified >= s[k].modified);
                }
            }
        }
    }
}

proof fn lemma_newest_first(s: Seq<RemoteModel>)
    ensures
        is_newest_first(newest_first(s)),
        newest_first(s).len() == s.len(),
    decreases s.len(),
{
    if s.len() > 0 {
        let t = newest_first(s.drop_last());
        lemma_newest_first(s.drop_last());
        lemma_first_older(t, s.last().modified);
        let p = first_older(t, s.last().modified);
        let r = t.insert(p, s.last());
        assert forall|i: int, j: int| 0 <= i < j < r.len() implies r[i].modified >= r[j].modified by {
            if j < p {
            } else if j == p {
            } else if i < p {
            } else if i == p {
            } else {
            }
        }
    }
}

/// Sorts files newest first; files of the same time keep their order.
pub fn sort_remote_files(files: &mut Vec<RemoteFile>)
    ensures
        remotes(final(files)@) == newest_first(remotes(old(files)@)),
        is_newest_first(remotes(final(files)@)),
{
    let ghost input = remotes(files@);
    let mut out: Vec<RemoteFile> = Vec::new();
    let n = files.len();
    assert(input.take(0) =~= Seq::<RemoteModel>::empty());
    for i in 0..n
        invariant
            n == files.len(),
            input == remotes(files@),
            remotes(out@) == newest_first(input.take(i as int)),
    {
        assert(input.take(i + 1).drop_last() =~= input.take(i as int));
        assert(input.take(i + 1).last() == files@[i as int]@);
        let t = files[i].modified;
        proof {
            lemma_newest_first(input.take(i as int));
        }
        let ghost cur = remotes(out@);
        assert(cur.skip(0) =~= cur);
        let mut p: usize = 0;
        while p < out.len() && out[p].modified >= t
            invariant
                p <= out.len(),
                cur == remotes(out@),
                first_older(cur, t) == p + first_older(cur.skip(p as int), t),
            decreases out.len() - p,
        {
            assert(cur.skip(p as int).drop_first() =~= cur.skip(p + 1));
            p = p + 1;
        }
        assert(first_older(cur, t) == p) by {
            if p < out.len() {
                assert(cur.skip(p as int)[0] == cur[p as int]);
            } else {
                assert(cur.skip(p as int).len() == 0);
            }
        }
        let ghost before = out@;
        out.insert(p, files[i].copy());
        assert(remotes(out@) =~= cur.insert(p as int, files@[i as int]@));
    }
    assert(input.take(n as int) =~= input);
    proof {
        lemma_newest_first(input);
    }
    *files = out;
}

/// Whether `file` is recorded as downloaded from the configured server.
pub open spec fn recorded_file(rs: Seq<RecordModel>, url: Seq<char>, f: RemoteModel) -> bool {
    exists|i: int| 0 <= i < rs.len() && completed_record(#[trigger] rs[i], url, f.path)
}

/// Whether the workspace holds a file of that name.
pub open spec fn held_file(local: Seq<Seq<char>>, f: RemoteModel) -> bool {
    match file_name_of(f.name) {
        Some(n) => local.contains(n),
        None => false,
    }
}

pub open spec fn count_held(fs: Seq<RemoteModel>, local: Seq<Seq<char>>) -> nat
    decreases fs.len(),
{
    if fs.len() == 0 {
        0
    } else {
        count_held(fs.drop_last(), local) + if held_file(local, fs.last()) {
            1nat
        } else {
            0nat
        }
    }
}

pub open spec fn count_recorded(fs: Seq<RemoteModel>, rs: Seq<RecordModel>, url: Seq<char>) -> nat
    decreases fs.len(),
{
    if fs.len() == 0 {
        0
    } else {
        count_recorded(fs.drop_last(), rs, url) + if recorded_file(rs, url, fs.last()) {
            1nat
        } else {
            0nat
        }
    }
}

proof fn lemma_counts_bounded(fs: Seq<RemoteModel>, rs: Seq<RecordModel>, url: Seq<char>, local: Seq<Seq<char>>)
    ensures
        count_held(fs, local) <= fs.len(),
        count_recorded(fs, rs, url) <= fs.len(),
    decreases fs.len(),
{
    if fs.len() > 0 {
        lemma_counts_bounded(fs.drop_last(), rs, url, local);
    }
}

/// How far the workspace is synchronised: the files held under their names, or, where
/// more, the files recorded as downloaded, out of all the server's files. `local_names`
/// are the names of the files in the download directory.
pub fn progress_with_index(
    files: &Vec<RemoteFile>,
    local_names: &Vec<String>,
    config: &SyncConfig,
    index: &DownloadIndex,
) -> (r: SyncProgress)
    ensures
        r.total == files.len(),
        r.present as int == {
            let held = count_held(remotes(files@), local_names@.map_values(|s: String| s@));
            let rec = count_recorded(remotes(files@), records(index.downloads@), config.url@);
            if held >= rec {
                held
            } else {
                rec
            }
        },
{
    let ghost fs = remotes(files@);
    let ghost local = local_names@.map_values(|s: String| s@);
    let ghost rs = records(index.downloads@);
    let mut held: usize = 0;
    let mut rec: usize = 0;
    let n = files.len();
    for i in 0..n
        invariant
            n == files.len(),
            fs == remotes(files@),
            local == local_names@.map_values(|s: String| s@),
            rs == records(index.downloads@),
            held as int == count_held(fs.take(i as int), local),
            rec as int == count_recorded(fs.take(i as int), rs, config.url@),
            held <= i,
            rec <= i,
    {
        assert(fs.take(i + 1).drop_last() =~= fs.take(i as int));
        assert(fs.take(i + 1).last() == files@[i as int]@);
        proof {
            lemma_counts_bounded(fs.take(i as int), rs, config.url@, local);
        }
        match file_name(files[i].name.as_str()) {
            Some(name) => {
                if crate::comfyui::graph::texts_contain(local_names, name.as_str()) {
                    assert(local_names@.map_values(|s: String| s@) =~= crate::comfyui::graph::texts(
                        local_names@,
                    ));
                    held = held + 1;
                } else {
                    assert(local_names@.map_values(|s: String| s@) =~= crate::comfyui::graph::texts(
                        local_names@,
                    ));
                }
            },
            None => {},
        }
        if index.contains_completed(config, &files[i]) {
            rec = rec + 1;
        }
    }
    assert(fs.take(n as int) =~= fs);
    SyncProgress { present: if held >= rec {
        held
    } else {
        rec
    }, total: n }
}

/// Checks that the configuration can reach a server.
pub fn validate_request_config(config: &SyncConfig) -> (r: Result<(), SyncError>)
    ensures
        match r {
            Ok(()) => config.url@.len() > 0 && (starts_with_seq(config.url@, "http://"@)
                || starts_with_seq(config.url@, "https://"@)) && config.remote_directory@.len() > 0,
            Err(e) => e is InvalidConfig && if config.url@.len() == 0 {
                e->InvalidConfig_0@ == "ComfyUI URL is required"@
            } else if !(starts_with_seq(config.url@, "http://"@) || starts_with_seq(
                config.url@,
                "https://"@,
            )) {
                e->InvalidConfig_0@ == "ComfyUI URL must start with http:// or https://"@
            } else {
                config.remote_directory@.len() == 0 && e->InvalidConfig_0@
                    == "Remote directory is required"@
            },
        },
{
    if config.url.as_str().is_empty() {
        return Err(SyncError::InvalidConfig(String::from_str("ComfyUI URL is required")));
    }
    if !(str_starts_with(config.url.as_str(), "http://") || str_starts_with(
        config.url.as_str(),
        "https://",
    )) {
        return Err(
            SyncError::InvalidConfig(
                String::from_str("ComfyUI URL must start with http:// or https://"),
            ),
        );
    }
    if config.remote_directory.as_str().is_empty() {
        return Err(SyncError::InvalidConfig(String::from_str("Remote directory is required")));
    }
    Ok(())
}

/// Where the workflow of a downloaded audio file is kept (see
/// `metadata::workflow_path_spec`); `adjacent_is_file` says whether a workflow lies
/// beside the audio file.
pub fn workflow_local_path(workspace: &str, audio_filename: &str, adjacent_is_file: bool) -> (r: String)
    requires
        crate::metadata::workflow_path_spec(
            workspace@,
            push_path(workspace@, audio_filename@),
            adjacent_is_file,
        ).is_some(),
    ensures
        crate::metadata::workflow_path_spec(
            workspace@,
            push_path(workspace@, audio_filename@),
            adjacent_is_file,
        ) == Some(r@),
{
    let audio = join_path(workspace, audio_filename);
    match crate::metadata::workflow_path(workspace, audio.as_str(), adjacent_is_file) {
        Some(p) => p,
        None => String::new(),
    }
}


/// No record that stays when a source is recorded anew is about that source.
pub proof fn lemma_other_sources(rs: Seq<RecordModel>, url: Seq<char>, path: Seq<char>)
    ensures
        forall|i: int|
            0 <= i < other_sources(rs, url, path).len() ==> !same_source(
                #[trigger] other_sources(rs, url, path)[i],
                url,
                path,
            ),
        forall|i: int|
            0 <= i < rs.len() && !same_source(rs[i], url, path) ==> other_sources(
                rs,
                url,
                path,
            ).contains(#[trigger] rs[i]),
    decreases rs.len(),
{
    if rs.len() > 0 {
        lemma_other_sources(rs.drop_last(), url, path);
        let rest = other_sources(rs.drop_last(), url, path);
        assert forall|i: int| 0 <= i < rs.len() && !same_source(rs[i], url, path) implies other_sources(
            rs,
            url,
            path,
        ).contains(#[trigger] rs[i]) by {
            if i < rs.len() - 1 {
                assert(rs.drop_last()[i] == rs[i]);
                let k = choose|k: int| 0 <= k < rest.len() && rest[k] == rs[i];
                if !same_source(rs.last(), url, path) {
                    assert(other_sources(rs, url, path)[k] == rs[i]);
                }
            } else {
                assert(other_sources(rs, url, path).last() == rs[i]);
            }
        }
    }
}

/// A download that is recorded counts as completed afterwards; it then has exactly one
/// record, the last, and every other file keeps its records.
pub proof fn law_recorded_download_is_completed(
    rs: Seq<RecordModel>,
    url: Seq<char>,
    path: Seq<char>,
    record: RecordModel,
)
    requires
        record.url == url,
        record.remote_path == path,
        record.status == "completed"@,
    ensures
        ({
            let after = other_sources(rs, url, path).push(record);
            &&& exists|i: int| 0 <= i < after.len() && completed_record(#[trigger] after[i], url, path)
            &&& forall|i: int|
                0 <= i < after.len() - 1 ==> !same_source(#[trigger] after[i], url, path)
            &&& forall|i: int|
                0 <= i < rs.len() && !same_source(rs[i], url, path) ==> after.contains(
                    #[trigger] rs[i],
                )
        }),
{
    lemma_other_sources(rs, url, path);
    let after = other_sources(rs, url, path).push(record);
    assert(completed_record(after[after.len() - 1], url, path));
    assert forall|i: int| 0 <= i < after.len() - 1 implies !same_source(#[trigger] after[i], url, path) by {
        assert(after[i] == other_sources(rs, url, path)[i]);
    }
    assert forall|i: int| 0 <= i < rs.len() && !same_source(rs[i], url, path) implies after.contains(
        #[trigger] rs[i],
    ) by {
        let rest = other_sources(rs, url, path);
        let k = choose|k: int| 0 <= k < rest.len() && rest[k] == rs[i];
        assert(after[k] == rs[i]);
    }
}

/// Recording a finished download of one file from one server forgets nothing about any
/// other file: every earlier record whose server or remote path differs stays in the
/// index, so each other file that counted as downloaded still does.
pub proof fn law_recording_keeps_other_downloads(
    rs: Seq<RecordModel>,
    url: Seq<char>,
    path: Seq<char>,
    record: RecordModel,
    other_url: Seq<char>,
    other_path: Seq<char>,
)
    requires
        other_url != url || other_path != path,
        exists|i: int| 0 <= i < rs.len() && completed_record(#[trigger] rs[i], other_url, other_path),
    ensures
        ({
            let after = other_sources(rs, url, path).push(record);
            &&& forall|i: int|
                0 <= i < rs.len() && (rs[i].url != url || rs[i].remote_path != path) ==> after.contains(
                    #[trigger] rs[i],
                )
            &&& exists|i: int|
                0 <= i < after.len() && completed_record(#[trigger] after[i], other_url, other_path)
        }),
{
    lemma_other_sources(rs, url, path);
    let rest = other_sources(rs, url, path);
    let after = rest.push(record);
    assert forall|i: int|
        0 <= i < rs.len() && (rs[i].url != url || rs[i].remote_path != path) implies after.contains(
        #[trigger] rs[i],
    ) by {
        assert(!same_source(rs[i], url, path));
        let k = choose|k: int| 0 <= k < rest.len() && rest[k] == rs[i];
        assert(after[k] == rs[i]);
    }
    let j = choose|i: int| 0 <= i < rs.len() && completed_record(#[trigger] rs[i], other_url, other_path);
    assert(after.contains(rs[j]));
    let k = choose|k: int| 0 <= k < after.len() && after[k] == rs[j];
    assert(completed_record(after[k], other_url, other_path));
}

/// A new run never has the number of the run before it, so what an earlier run reports
/// can always be told apart.
pub proof fn law_new_run_has_a_new_number(generation: u64)
    ensures
        next_generation(generation) != generation,
{
}

proof fn lemma_first_older_bound(s: Seq<RemoteModel>, t: u64)
    ensures
        0 <= first_older(s, t) <= s.len(),
    decreases s.len(),
{
    if s.len() > 0 && s[0].modified >= t {
        lemma_first_older_bound(s.drop_first(), t);
    }
}

/// Sorting keeps every file, each as often as it came.
pub proof fn law_sorting_keeps_every_file(s: Seq<RemoteModel>)
    ensures
        newest_first(s).to_multiset() == s.to_multiset(),
    decreases s.len(),
{
    broadcast use vstd::seq_lib::to_multiset_insert, vstd::seq_lib::to_multiset_build;

    if s.len() > 0 {
        law_sorting_keeps_every_file(s.drop_last());
        let t = newest_first(s.drop_last());
        lemma_first_older_bound(t, s.last().modified);
        assert(s.drop_last().push(s.last()) =~= s);
    }
}

/// Whether the index holds a finished download of `path` from `url`.
pub open spec fn has_completed(rs: Seq<RecordModel>, url: Seq<char>, path: Seq<char>) -> bool {
    exists|i: int| 0 <= i < rs.len() && completed_record(#[trigger] rs[i], url, path)
}

/// What one pass of the synchronisation does with a file of the server.
#[derive(Clone, Debug, PartialEq)]
pub enum FileAction {
    /// The file has no name to save it under.
    Skip,
    /// Download it under this name.
    Download(String),
    /// It is here, or was downloaded before: only its workflow is looked after.
    Keep(String),
}

/// The action for a file (see `FileAction`): its local name is the last component of its
/// remote name; it is downloaded when no file of that name is in the destination
/// (`local_exists`) and the index holds no finished download of it.
pub fn file_action(config: &SyncConfig, index: &DownloadIndex, file: &RemoteFile, local_exists: bool) -> (r:
    FileAction)
    ensures
        match r {
            FileAction::Skip => local_name(file.name@).len() == 0,
            FileAction::Download(n) => n@ == local_name(file.name@) && n@.len() > 0 && !local_exists
                && !has_completed(records(index.downloads@), config.url@, file.path@),
            FileAction::Keep(n) => n@ == local_name(file.name@) && n@.len() > 0 && (local_exists
                || has_completed(records(index.downloads@), config.url@, file.path@)),
        },
{
    let name = match file_name(file.name.as_str()) {
        Some(n) => n,
        None => {
            assert(local_name(file.name@) =~= Seq::<char>::empty());
            return FileAction::Skip;
        },
    };
    assert(local_name(file.name@) == name@);
    proof {
        reveal_strlit("");
    }
    if text_eq(name.as_str(), "") {
        assert(""@ =~= Seq::<char>::empty());
        return FileAction::Skip;
    }
    proof {
        if name@.len() == 0 {
            assert(name@ =~= ""@);
        }
    }
    let r = if !local_exists && !index.contains_completed(config, file) {
        FileAction::Download(name)
    } else {
        FileAction::Keep(name)
    };
    r
}

/// The workflow the server keeps beside an audio file: the same name and path with
/// `.workflow.json` added, and the same time.
pub fn workflow_remote_file(audio: &RemoteFile) -> (r: RemoteFile)
    ensures
        r.name@ == audio.name@ + ".workflow.json"@,
        r.path@ == audio.path@ + ".workflow.json"@,
        r.modified == audio.modified,
{
    let mut name = audio.name.clone();
    name.append(".workflow.json");
    let mut path = audio.path.clone();
    path.append(".workflow.json");
    RemoteFile { name, path, modified: audio.modified }
}

/// The progress after one more file was downloaded.
pub fn downloaded_one(progress: &SyncProgress) -> (r: SyncProgress)
    requires
        progress.present < usize::MAX,
    ensures
        r.present == progress.present + 1,
        r.total == progress.total,
{
    SyncProgress { present: progress.present + 1, total: progress.total }
}

/// How long a pass waits before the next: the configured interval, at least 100 ms.
pub fn poll_interval_ms(config: &SyncConfig) -> (r: u64)
    ensures
        r == if config.interval_ms >= 100 {
            config.interval_ms
        } else {
            100
        },
{
    if config.interval_ms >= 100 {
        config.interval_ms
    } else {
        100
    }
}

/// A file of the server's list that has a name and a path, other than white space.
pub open spec fn well_named(f: RemoteModel) -> bool {
    trim_seq(f.name).len() > 0 && trim_seq(f.path).len() > 0
}

/// Refuses a file list of the server in which a file has no name or no path.
pub fn check_remote_files(files: &Vec<RemoteFile>) -> (r: Result<(), SyncError>)
    ensures
        r is Ok <==> forall|i: int| 0 <= i < files@.len() ==> well_named(#[trigger] files@[i]@),
        r is Err ==> r == Err::<(), SyncError>(
            SyncError::Response(r->Err_0->Response_0),
        ) && r->Err_0->Response_0@ == "ComfyUI returned a file without a name or path"@,
{
    let n = files.len();
    for i in 0..n
        invariant
            n == files.len(),
            forall|k: int| 0 <= k < i ==> well_named(#[trigger] files@[k]@),
    {
        let name = trim(files[i].name.as_str());
        let path = trim(files[i].path.as_str());
        proof {
            reveal_strlit("");
        }
        if text_eq(name.as_str(), "") || text_eq(path.as_str(), "") {
            assert(!well_named(files@[i as int]@));
            return Err(SyncError::Response(String::from_str("ComfyUI returned a file without a name or path")));
        }
        proof {
            if name@.len() == 0 {
                assert(name@ =~= ""@);
            }
            if path@.len() == 0 {
                assert(path@ =~= ""@);
            }
        }
    }
    Ok(())
}
} // verus!
